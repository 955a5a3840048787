//! Allocation of one invoice's value and commission across its installments.
//!
//! Money is held in integer cents. A scheduled invoice's value is split
//! equally over its offsets; the division remainder is assigned to the first
//! installment, so the shares sum back to the invoice's value exactly.
//! Commissions truncate to whole cents.

use vstd::prelude::*;
use crate::date::{Date, date_valid, spec_plus_days, add_days};
use crate::interval::{IntervalSpec, IntervalModel, interval_wf, DEFAULT_RATE};

verus! {

/// Ceiling on an invoice's value in cents, so that rate times value stays
/// within `u64`.
pub const MAX_VALUE_CENTS: u64 = 1_000_000_000_000_000;

/// Ceiling on emission years, so that due dates stay within `u32` years.
pub const MAX_YEAR: u32 = 1_000_000;

/// One source ledger row: a sales invoice.
pub struct Invoice {
    pub emission: Date,
    pub number: String,
    pub client: String,
    pub interval_text: String,
    pub value_cents: u64,
}

pub open spec fn invoice_wf(inv: Invoice) -> bool {
    &&& date_valid(inv.emission)
    &&& inv.emission.year <= MAX_YEAR
    &&& inv.value_cents <= MAX_VALUE_CENTS
}

/// One derived commission record: a share of an invoice due on one date.
#[derive(Debug)]
pub struct Installment {
    pub emission: Date,
    pub number: String,
    pub client: String,
    pub due: Date,
    pub installment_cents: u64,
    pub commission_cents: u64,
}

impl Clone for Installment {
    fn clone(&self) -> (r: Self)
        ensures
            r == *self,
    {
        Installment {
            emission: self.emission,
            number: self.number.clone(),
            client: self.client.clone(),
            due: self.due,
            installment_cents: self.installment_cents,
            commission_cents: self.commission_cents,
        }
    }
}

/// Installment `i`'s share of `value` split over `n` parts: the equal share,
/// with the division remainder assigned to the first installment.
pub open spec fn spec_share(value: u64, n: int, i: int) -> u64 {
    if i == 0 {
        (value as int / n + value as int % n) as u64
    } else {
        (value as int / n) as u64
    }
}

/// Commission owed on `amount` at `rate` percent, truncated to whole cents.
pub open spec fn spec_commission(rate: u8, amount: u64) -> u64 {
    ((rate as int * amount as int) / 100) as u64
}

pub open spec fn spec_installment_of(inv: Invoice, rate: u8, offset_days: u32, amount: u64) -> Installment {
    Installment {
        emission: inv.emission,
        number: inv.number,
        client: inv.client,
        due: spec_plus_days(inv.emission, offset_days as nat),
        installment_cents: amount,
        commission_cents: spec_commission(rate, amount),
    }
}

/// The installments an invoice yields under a parsed schedule.
pub open spec fn spec_installments(inv: Invoice, m: IntervalModel) -> Seq<Installment> {
    match m {
        IntervalModel::Immediate => seq![
            spec_installment_of(inv, DEFAULT_RATE, 30, inv.value_cents),
        ],
        IntervalModel::Scheduled { offsets, rate } => Seq::new(
            offsets.len(),
            |i: int| spec_installment_of(
                inv,
                rate,
                offsets[i] as u32,
                spec_share(inv.value_cents, offsets.len() as int, i),
            ),
        ),
    }
}

/// The equal share and the remainder are non-negative and, put together on
/// the first installment, never exceed the value itself.
pub proof fn lemma_share_bounds(v: int, n: int)
    requires
        0 <= v,
        1 <= n,
    ensures
        0 <= v / n,
        0 <= v % n < n,
        v / n + v % n <= v,
        n * (v / n) + v % n == v,
{
    vstd::arithmetic::div_mod::lemma_fundamental_div_mod(v, n);
    vstd::arithmetic::div_mod::lemma_div_pos_is_pos(v, n);
    let q = v / n;
    assert((n - 1) * q >= 0 && n * q == (n - 1) * q + q) by (nonlinear_arith)
        requires
            n >= 1,
            q >= 0,
    ;
}

/// Produces one commission record per installment of the schedule.
pub fn allocate(inv: &Invoice, sched: &IntervalSpec) -> (r: Vec<Installment>)
    requires
        invoice_wf(*inv),
        interval_wf(sched@),
    ensures
        r@ == spec_installments(*inv, sched@),
{
    match sched {
        IntervalSpec::Immediate => {
            let due = add_days(inv.emission, 30);
            let amount = inv.value_cents;
            let commission = (7u64 * amount) / 100;
            proof {
                assert(commission == spec_commission(DEFAULT_RATE, amount));
            }
            let mut v: Vec<Installment> = Vec::new();
            v.push(Installment {
                emission: inv.emission,
                number: inv.number.clone(),
                client: inv.client.clone(),
                due,
                installment_cents: amount,
                commission_cents: commission,
            });
            proof {
                assert(v@ =~= spec_installments(*inv, sched@));
            }
            v
        },
        IntervalSpec::Scheduled { offsets, rate } => {
            let n = offsets.len();
            let n64 = n as u64;
            let value = inv.value_cents;
            proof {
                lemma_share_bounds(value as int, n64 as int);
            }
            let base = value / n64;
            let rem = value % n64;
            let mut v: Vec<Installment> = Vec::new();
            let mut i: usize = 0;
            while i < n
                invariant
                    i <= n,
                    n == offsets@.len(),
                    n64 == n as u64,
                    base == value as int / n64 as int,
                    rem == value as int % n64 as int,
                    base + rem <= value,
                    sched@ == (IntervalModel::Scheduled { offsets: offsets@, rate: *rate }),
                    invoice_wf(*inv),
                    interval_wf(sched@),
                    value == inv.value_cents,
                    v@.len() == i,
                    forall|j: int| 0 <= j < i ==> v@[j] == spec_installment_of(
                        *inv,
                        *rate,
                        offsets@[j] as u32,
                        spec_share(inv.value_cents, offsets@.len() as int, j),
                    ),
                decreases n - i,
            {
                let amount = if i == 0 {
                    base + rem
                } else {
                    base
                };
                proof {
                    assert(*rate as int * amount as int <= 9 * amount as int) by (nonlinear_arith)
                        requires
                            *rate <= 9,
                            amount >= 0,
                    ;
                }
                let commission = (*rate as u64 * amount) / 100;
                let due = add_days(inv.emission, offsets[i] as u32);
                v.push(Installment {
                    emission: inv.emission,
                    number: inv.number.clone(),
                    client: inv.client.clone(),
                    due,
                    installment_cents: amount,
                    commission_cents: commission,
                });
                i = i + 1;
            }
            proof {
                assert(v@ =~= spec_installments(*inv, sched@));
            }
            v
        },
    }
}

/// Sum of the installment values of a run of commission records.
pub open spec fn sum_installment_cents(s: Seq<Installment>) -> int
    decreases s.len(),
{
    if s.len() == 0 {
        0
    } else {
        sum_installment_cents(s.drop_last()) + s.last().installment_cents
    }
}

proof fn lemma_sum_shares_prefix(inv: Invoice, offsets: Seq<u16>, rate: u8, k: int)
    requires
        offsets.len() >= 1,
        0 <= k <= offsets.len(),
    ensures
        ({
            let n = offsets.len() as int;
            let v = inv.value_cents as int;
            sum_installment_cents(
                spec_installments(inv, IntervalModel::Scheduled { offsets, rate }).take(k),
            ) == if k == 0 {
                0
            } else {
                v / n + v % n + (k - 1) * (v / n)
            }
        }),
    decreases k,
{
    let n = offsets.len() as int;
    let v = inv.value_cents as int;
    let q = v / n;
    let s = spec_installments(inv, IntervalModel::Scheduled { offsets, rate });
    lemma_share_bounds(v, n);
    if k == 0 {
        assert(s.take(0) =~= Seq::<Installment>::empty());
    } else {
        lemma_sum_shares_prefix(inv, offsets, rate, k - 1);
        assert(s.take(k).drop_last() =~= s.take(k - 1));
        assert(s.take(k).last() == s[k - 1]);
        if k == 1 {
            assert(0 * q == 0) by (nonlinear_arith);
        } else {
            assert((k - 2) * q + q == (k - 1) * q) by (nonlinear_arith);
        }
    }
}

/// Law: the installment values an invoice yields sum back to exactly the
/// invoice's value, under either schedule variant.
pub proof fn lemma_allocation_preserves_value(inv: Invoice, m: IntervalModel)
    requires
        interval_wf(m),
    ensures
        sum_installment_cents(spec_installments(inv, m)) == inv.value_cents,
{
    match m {
        IntervalModel::Immediate => {
            let s = spec_installments(inv, m);
            assert(s.len() == 1);
            assert(s.drop_last() =~= Seq::<Installment>::empty());
            assert(sum_installment_cents(s.drop_last()) == 0);
            assert(s.last().installment_cents == inv.value_cents);
        },
        IntervalModel::Scheduled { offsets, rate } => {
            let n = offsets.len() as int;
            let v = inv.value_cents as int;
            let q = v / n;
            let s = spec_installments(inv, m);
            lemma_sum_shares_prefix(inv, offsets, rate, n);
            assert(s.take(n) =~= s);
            lemma_share_bounds(v, n);
            assert((n - 1) * q + q == n * q) by (nonlinear_arith);
        },
    }
}

/// Law: the immediate schedule yields exactly one installment, valued at the
/// whole invoice, due 30 days after emission, at the default 7% rate.
pub proof fn lemma_immediate_single(inv: Invoice)
    ensures
        ({
            let s = spec_installments(inv, IntervalModel::Immediate);
            &&& s.len() == 1
            &&& s[0].due == spec_plus_days(inv.emission, 30)
            &&& s[0].installment_cents == inv.value_cents
            &&& s[0].commission_cents == spec_commission(7, inv.value_cents)
        }),
{
}

/// Law: a scheduled spec with n offsets yields exactly n installments; every
/// installment past the first is valued at value / n, and the first besides
/// carries the division remainder, so all are equal when n divides the value.
pub proof fn lemma_scheduled_split(inv: Invoice, offsets: Seq<u16>, rate: u8)
    requires
        offsets.len() >= 1,
    ensures
        ({
            let n = offsets.len() as int;
            let v = inv.value_cents as int;
            let s = spec_installments(inv, IntervalModel::Scheduled { offsets, rate });
            &&& s.len() == n
            &&& forall|i: int| 1 <= i < n ==> #[trigger] s[i].installment_cents == v / n
            &&& s[0].installment_cents == v / n + v % n
            &&& v % n == 0 ==> forall|i: int| 0 <= i < n ==> #[trigger] s[i].installment_cents == v / n
        }),
{
    lemma_share_bounds(inv.value_cents as int, offsets.len() as int);
}

/// Law: an explicit rate override in the interval text sets the commission
/// rate of every installment that the invoice yields.
pub proof fn lemma_rate_override_applies(inv: Invoice, raw: Seq<char>, d: u8)
    requires
        crate::interval::spec_rate_scan(crate::interval::spec_trim(raw), 0) == Option::Some(d),
        crate::interval::spec_parse(raw) is Ok,
        crate::interval::spec_parse(raw)->Ok_0 is Scheduled,
    ensures
        ({
            let s = spec_installments(inv, crate::interval::spec_parse(raw)->Ok_0);
            forall|i: int| 0 <= i < s.len() ==> #[trigger] s[i].commission_cents
                == spec_commission(d, s[i].installment_cents)
        }),
{
}

} // verus!
