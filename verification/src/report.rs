//! The report assembler: drives parsing, allocation and monthly grouping
//! over a whole invoice collection, and orders the resulting months.

use vstd::prelude::*;
use crate::allocate::{Invoice, Installment, spec_installments, allocate, invoice_wf, MAX_YEAR};
use crate::interval::{spec_parse, parse_interval, ParseError, IntervalModel, interval_wf};
use crate::aggregate::{
    MonthBucket, aggregate, order_buckets, report_sound, buckets_sound, buckets_ordered,
    bucket_key, bucket_sound, month_present, in_buckets, item_key,
};
use crate::date::{date_valid, spec_plus_days, lemma_plus_days_valid};

verus! {

/// The schedule of an invoice: what parsing its interval text yields.
pub open spec fn spec_schedule(inv: Invoice) -> Result<IntervalModel, ParseError> {
    spec_parse(inv.interval_text@)
}

/// All installments of `invs`, invoice by invoice, in input order. An
/// invoice whose interval text fails to parse contributes nothing here;
/// `build_report` fails on it instead of reporting.
pub open spec fn spec_all_installments(invs: Seq<Invoice>) -> Seq<Installment>
    decreases invs.len(),
{
    if invs.len() == 0 {
        Seq::empty()
    } else {
        spec_all_installments(invs.drop_last()) + (match spec_schedule(invs.last()) {
            Result::Ok(m) => spec_installments(invs.last(), m),
            Result::Err(_) => Seq::empty(),
        })
    }
}

pub open spec fn all_parse(invs: Seq<Invoice>) -> bool {
    forall|i: int| 0 <= i < invs.len() ==> spec_schedule(#[trigger] invs[i]) is Ok
}

pub open spec fn parse_ok_upto(invs: Seq<Invoice>, n: int) -> bool {
    forall|j: int| 0 <= j < n ==> spec_schedule(#[trigger] invs[j]) is Ok
}

/// Builds the full report: parses every invoice's interval, allocates its
/// installments, groups them by due month, and returns the month buckets in
/// chronological order. Fails on the first invoice whose interval text is
/// malformed, reporting that invoice's parse error.
pub fn build_report(invoices: &Vec<Invoice>) -> (r: Result<Vec<MonthBucket>, ParseError>)
    requires
        forall|i: int| 0 <= i < invoices@.len() ==> invoice_wf(#[trigger] invoices@[i]),
    ensures
        r is Ok <==> all_parse(invoices@),
        r matches Err(e) ==> exists|i: int|
            0 <= i < invoices@.len() && spec_schedule(#[trigger] invoices@[i])
                == Result::<IntervalModel, ParseError>::Err(e) && parse_ok_upto(invoices@, i),
        r matches Ok(bs) ==> report_sound(spec_all_installments(invoices@), bs@),
{
    let mut items: Vec<Installment> = Vec::new();
    let mut i: usize = 0;
    while i < invoices.len()
        invariant
            i <= invoices@.len(),
            forall|x: int| 0 <= x < invoices@.len() ==> invoice_wf(#[trigger] invoices@[x]),
            parse_ok_upto(invoices@, i as int),
            items@ == spec_all_installments(invoices@.take(i as int)),
            forall|x: int| 0 <= x < items@.len() ==> date_valid(#[trigger] items@[x].due),
        decreases invoices@.len() - i,
    {
        let inv = &invoices[i];
        let ghost pre = items@;
        proof {
            assert(invoices@.take(i as int + 1).drop_last() =~= invoices@.take(i as int));
            assert(invoices@.take(i as int + 1).last() == invoices@[i as int]);
        }
        match parse_interval(inv.interval_text.as_str()) {
            Result::Err(e) => {
                proof {
                    assert(spec_schedule(invoices@[i as int])
                        == Result::<IntervalModel, ParseError>::Err(e));
                }
                return Result::Err(e);
            },
            Result::Ok(sched) => {
                let mut part = allocate(inv, &sched);
                proof {
                    let m = sched@;
                    assert(spec_schedule(invoices@[i as int])
                        == Result::<IntervalModel, ParseError>::Ok(m));
                    assert(spec_all_installments(invoices@.take(i as int + 1)) == pre + part@);
                    assert forall|x: int| 0 <= x < part@.len() implies date_valid(
                        #[trigger] part@[x].due,
                    ) by {
                        let off: u32 = match m {
                            IntervalModel::Immediate => 30u32,
                            IntervalModel::Scheduled { offsets, .. } => offsets[x] as u32,
                        };
                        assert(interval_wf(m));
                        assert(off <= 1000);
                        assert(part@[x].due == spec_plus_days(inv.emission, off as nat));
                        lemma_plus_days_valid(inv.emission, off as nat);
                    }
                }
                items.append(&mut part);
            },
        }
        i = i + 1;
    }
    proof {
        assert(invoices@.take(invoices@.len() as int) =~= invoices@);
    }
    let ghost all = spec_all_installments(invoices@);
    proof {
        assert(items@ == all);
    }
    let buckets = aggregate(&items);
    proof {
        assert forall|j: int| 0 <= j < buckets@.len() implies 1 <= (#[trigger] buckets@[j]).month
            <= 12 by {
            assert(bucket_sound(all, buckets@[j]));
        }
        assert forall|j: int, k: int| 0 <= j < k < buckets@.len() implies bucket_key(
            #[trigger] buckets@[j],
        ) != bucket_key(#[trigger] buckets@[k]) by {}
    }
    let ordered = order_buckets(buckets);
    proof {
        lemma_soundness_carries_over(all, buckets@, ordered@);
    }
    Result::Ok(ordered)
}

/// A reordering of a sound grouping that keeps every bucket is itself sound.
proof fn lemma_soundness_carries_over(
    items: Seq<Installment>,
    bs: Seq<MonthBucket>,
    r: Seq<MonthBucket>,
)
    requires
        buckets_sound(items, bs),
        buckets_ordered(r),
        forall|j: int| 0 <= j < r.len() ==> in_buckets(bs, #[trigger] r[j]),
        forall|k: int| 0 <= k < bs.len() ==> in_buckets(r, #[trigger] bs[k]),
    ensures
        report_sound(items, r),
{
    assert forall|j: int| 0 <= j < r.len() implies bucket_sound(items, #[trigger] r[j]) by {
        assert(in_buckets(bs, r[j]));
        let k0 = choose|k: int| 0 <= k < bs.len() && #[trigger] bs[k] == r[j];
        assert(bucket_sound(items, bs[k0]));
    }
    assert forall|j: int, k: int| 0 <= j < k < r.len() implies bucket_key(#[trigger] r[j])
        != bucket_key(#[trigger] r[k]) by {
        assert(bucket_key(r[j]) < bucket_key(r[k]));
    }
    assert forall|i: int| 0 <= i < items.len() implies month_present(r, #[trigger] items[i]) by {
        assert(month_present(bs, items[i]));
        let j0 = choose|j: int|
            0 <= j < bs.len() && bucket_key(#[trigger] bs[j]) == item_key(items[i]);
        assert(in_buckets(r, bs[j0]));
        let j1 = choose|j: int| 0 <= j < r.len() && #[trigger] r[j] == bs[j0];
        assert(bucket_key(r[j1]) == item_key(items[i]));
        assert(month_present(r, items[i]));
    }
}

} // verus!
