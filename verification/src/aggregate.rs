//! Grouping of commission records into calendar-month buckets, and the
//! chronological ordering of those buckets.

use vstd::prelude::*;
use crate::allocate::Installment;
use crate::date::{date_valid, spec_month_label, month_label};

verus! {

/// All commission records due in one calendar month, under its label.
#[derive(Debug)]
pub struct MonthBucket {
    pub year: u32,
    pub month: u32,
    pub label: String,
    pub entries: Vec<Installment>,
}

/// A single comparable key for a calendar month.
pub open spec fn spec_month_key(y: int, m: int) -> int {
    y * 12 + m
}

pub open spec fn bucket_key(b: MonthBucket) -> int {
    spec_month_key(b.year as int, b.month as int)
}

pub open spec fn item_key(it: Installment) -> int {
    spec_month_key(it.due.year as int, it.due.month as int)
}

/// Whether a record falls due in month `m` of year `y`.
pub open spec fn due_in(it: Installment, y: int, m: int) -> bool {
    it.due.year == y && it.due.month == m
}

/// The records of `items`, in order, that fall due in month `m` of year `y`.
pub open spec fn month_filter(items: Seq<Installment>, y: int, m: int) -> Seq<Installment>
    decreases items.len(),
{
    if items.len() == 0 {
        Seq::empty()
    } else {
        let rest = month_filter(items.drop_last(), y, m);
        if due_in(items.last(), y, m) {
            rest.push(items.last())
        } else {
            rest
        }
    }
}

/// A record of its month is in the month's filter.
pub proof fn lemma_month_filter_contains(items: Seq<Installment>, y: int, m: int, x: int)
    requires
        0 <= x < items.len(),
        due_in(items[x], y, m),
    ensures
        month_filter(items, y, m).contains(items[x]),
    decreases items.len(),
{
    if x == items.len() - 1 {
        let f = month_filter(items, y, m);
        assert(f.last() == items[x]);
        assert(f.contains(items[x]));
    } else {
        lemma_month_filter_contains(items.drop_last(), y, m, x);
        let fd = month_filter(items.drop_last(), y, m);
        let i0 = choose|i: int| 0 <= i < fd.len() && fd[i] == items.drop_last()[x];
        assert(items.drop_last()[x] == items[x]);
        if due_in(items.last(), y, m) {
            assert(month_filter(items, y, m)[i0] == items[x]);
        } else {
            assert(month_filter(items, y, m)[i0] == items[x]);
        }
    }
}

/// A sound bucket for `items`: a real month, its proper label, and exactly
/// the records of its month, in input order, at least one of them.
pub open spec fn bucket_sound(items: Seq<Installment>, b: MonthBucket) -> bool {
    &&& 1 <= b.month <= 12
    &&& b.label@ == spec_month_label(b.year as int, b.month as int)
    &&& b.entries@ == month_filter(items, b.year as int, b.month as int)
    &&& b.entries@.len() >= 1
}

/// A sound grouping of `items`: every bucket sound with a distinct month,
/// and every record's month present among the buckets.
pub open spec fn buckets_sound(items: Seq<Installment>, bs: Seq<MonthBucket>) -> bool {
    &&& forall|j: int| 0 <= j < bs.len() ==> bucket_sound(items, #[trigger] bs[j])
    &&& forall|j: int, k: int|
        0 <= j < k < bs.len() ==> bucket_key(#[trigger] bs[j]) != bucket_key(#[trigger] bs[k])
    &&& forall|i: int| 0 <= i < items.len() ==> month_present(bs, #[trigger] items[i])
}

/// Whether some bucket of `bs` is keyed by the due month of `it`.
pub open spec fn month_present(bs: Seq<MonthBucket>, it: Installment) -> bool {
    exists|j: int| 0 <= j < bs.len() && bucket_key(#[trigger] bs[j]) == item_key(it)
}

/// Strictly chronological bucket order.
pub open spec fn buckets_ordered(bs: Seq<MonthBucket>) -> bool {
    forall|j: int, k: int|
        0 <= j < k < bs.len() ==> bucket_key(#[trigger] bs[j]) < bucket_key(#[trigger] bs[k])
}

/// The whole grouped, ordered report for `items`.
pub open spec fn report_sound(items: Seq<Installment>, bs: Seq<MonthBucket>) -> bool {
    &&& buckets_sound(items, bs)
    &&& buckets_ordered(bs)
}

/// Whether `keys` already holds the month of `it`.
pub open spec fn covers(keys: Seq<(u32, u32)>, it: Installment) -> bool {
    exists|j: int| 0 <= j < keys.len() && #[trigger] keys[j] == (it.due.year, it.due.month)
}

/// Every key of `keys` is the due month of some record of `items`.
pub open spec fn keys_sound(keys: Seq<(u32, u32)>, items: Seq<Installment>) -> bool {
    forall|j: int| 0 <= j < keys.len() ==> exists|x: int|
        0 <= x < items.len() && #[trigger] keys[j] == (items[x].due.year, items[x].due.month)
}

pub open spec fn keys_distinct(keys: Seq<(u32, u32)>) -> bool {
    forall|j: int, k: int| 0 <= j < k < keys.len() ==> keys[j] != keys[k]
}

fn key_present(keys: &Vec<(u32, u32)>, y: u32, m: u32) -> (b: bool)
    ensures
        b == exists|j: int| 0 <= j < keys@.len() && #[trigger] keys@[j] == (y, m),
{
    let mut j: usize = 0;
    while j < keys.len()
        invariant
            j <= keys@.len(),
            forall|x: int| 0 <= x < j ==> #[trigger] keys@[x] != (y, m),
        decreases keys@.len() - j,
    {
        if keys[j].0 == y && keys[j].1 == m {
            return true;
        }
        j = j + 1;
    }
    false
}

/// The distinct due months of `items`, in order of first appearance.
fn collect_keys(items: &Vec<Installment>) -> (keys: Vec<(u32, u32)>)
    ensures
        keys_distinct(keys@),
        keys_sound(keys@, items@),
        forall|x: int| 0 <= x < items@.len() ==> covers(keys@, #[trigger] items@[x]),
{
    let mut keys: Vec<(u32, u32)> = Vec::new();
    let mut i: usize = 0;
    while i < items.len()
        invariant
            i <= items@.len(),
            keys_distinct(keys@),
            keys_sound(keys@, items@),
            forall|x: int| 0 <= x < i ==> covers(keys@, #[trigger] items@[x]),
        decreases items@.len() - i,
    {
        let ghost old_keys = keys@;
        let y = items[i].due.year;
        let m = items[i].due.month;
        if !key_present(&keys, y, m) {
            keys.push((y, m));
            proof {
                let j0 = old_keys.len() as int;
                assert(keys@[j0] == (items@[i as int].due.year, items@[i as int].due.month));
            }
        }
        proof {
            assert forall|j: int| 0 <= j < keys@.len() implies exists|x: int|
                0 <= x < items@.len() && #[trigger] keys@[j]
                    == (items@[x].due.year, items@[x].due.month) by {
                if j < old_keys.len() {
                    assert(keys@[j] == old_keys[j]);
                    assert(exists|x: int|
                        0 <= x < items@.len() && #[trigger] old_keys[j]
                            == (items@[x].due.year, items@[x].due.month));
                    let x0 = choose|x: int|
                        0 <= x < items@.len() && #[trigger] old_keys[j]
                            == (items@[x].due.year, items@[x].due.month);
                    assert(keys@[j] == (items@[x0].due.year, items@[x0].due.month));
                } else {
                    assert(keys@[j] == (items@[i as int].due.year, items@[i as int].due.month));
                }
            }
            assert(keys_sound(keys@, items@));
            assert(covers(keys@, items@[i as int]));
            assert forall|x: int| 0 <= x < i + 1 implies covers(keys@, #[trigger] items@[x]) by {
                if x < i {
                    let j0 = choose|j: int|
                        0 <= j < old_keys.len() && #[trigger] old_keys[j]
                            == (items@[x].due.year, items@[x].due.month);
                    assert(keys@[j0] == old_keys[j0]);
                }
            }
        }
        i = i + 1;
    }
    keys
}

/// The records of `items` due in month `m` of year `y`, in input order.
fn build_entries(items: &Vec<Installment>, y: u32, m: u32) -> (entries: Vec<Installment>)
    ensures
        entries@ == month_filter(items@, y as int, m as int),
{
    let mut entries: Vec<Installment> = Vec::new();
    let mut x: usize = 0;
    while x < items.len()
        invariant
            x <= items@.len(),
            entries@ == month_filter(items@.take(x as int), y as int, m as int),
        decreases items@.len() - x,
    {
        proof {
            assert(items@.take(x as int + 1).drop_last() =~= items@.take(x as int));
            assert(items@.take(x as int + 1).last() == items@[x as int]);
        }
        let it = &items[x];
        if it.due.year == y && it.due.month == m {
            entries.push(it.clone());
        }
        x = x + 1;
    }
    proof {
        assert(items@.take(items@.len() as int) =~= items@);
    }
    entries
}

/// Groups records into month buckets: one bucket per distinct due month,
/// each holding its records in input order.
#[verifier::rlimit(100)]
pub fn aggregate(items: &Vec<Installment>) -> (bs: Vec<MonthBucket>)
    requires
        forall|i: int| 0 <= i < items@.len() ==> date_valid(#[trigger] items@[i].due),
    ensures
        buckets_sound(items@, bs@),
{
    let keys = collect_keys(items);
    let mut bs: Vec<MonthBucket> = Vec::new();
    let mut q: usize = 0;
    while q < keys.len()
        invariant
            q <= keys@.len(),
            bs@.len() == q,
            forall|i: int| 0 <= i < items@.len() ==> date_valid(#[trigger] items@[i].due),
            keys_distinct(keys@),
            keys_sound(keys@, items@),
            forall|x: int| 0 <= x < items@.len() ==> covers(keys@, #[trigger] items@[x]),
            forall|j: int| 0 <= j < q ==> (#[trigger] bs@[j]).year == keys@[j].0
                && bs@[j].month == keys@[j].1,
            forall|j: int| 0 <= j < q ==> bucket_sound(items@, #[trigger] bs@[j]),
        decreases keys@.len() - q,
    {
        let y = keys[q].0;
        let m = keys[q].1;
        proof {
            let j0 = q as int;
            assert(exists|x: int|
                0 <= x < items@.len() && #[trigger] keys@[j0]
                    == (items@[x].due.year, items@[x].due.month));
            let x0 = choose|x: int|
                0 <= x < items@.len() && #[trigger] keys@[j0]
                    == (items@[x].due.year, items@[x].due.month);
            assert(date_valid(items@[x0].due));
            assert(1 <= m <= 12);
            assert(due_in(items@[x0], y as int, m as int));
            lemma_month_filter_contains(items@, y as int, m as int, x0);
        }
        let entries = build_entries(items, y, m);
        let label = month_label(y, m);
        bs.push(MonthBucket { year: y, month: m, label, entries });
        q = q + 1;
    }
    proof {
        lemma_buckets_assemble(items@, keys@, bs@);
    }
    bs
}

/// One sound bucket per distinct key, the keys drawn from and covering the
/// records' months, makes a sound grouping.
proof fn lemma_buckets_assemble(items: Seq<Installment>, keys: Seq<(u32, u32)>, bs: Seq<MonthBucket>)
    requires
        keys_distinct(keys),
        forall|x: int| 0 <= x < items.len() ==> covers(keys, #[trigger] items[x]),
        bs.len() == keys.len(),
        forall|j: int| 0 <= j < bs.len() ==> (#[trigger] bs[j]).year == keys[j].0
            && bs[j].month == keys[j].1,
        forall|j: int| 0 <= j < bs.len() ==> bucket_sound(items, #[trigger] bs[j]),
    ensures
        buckets_sound(items, bs),
{
    assert forall|j: int, k: int| 0 <= j < k < bs.len() implies bucket_key(#[trigger] bs[j])
        != bucket_key(#[trigger] bs[k]) by {
        assert(keys[j] != keys[k]);
        assert(bucket_sound(items, bs[j]));
        assert(bucket_sound(items, bs[k]));
        if bucket_key(bs[j]) == bucket_key(bs[k]) {
            lemma_month_key_injective(
                bs[j].year as int,
                bs[j].month as int,
                bs[k].year as int,
                bs[k].month as int,
            );
            assert(keys[j] =~= keys[k]);
        }
    }
    assert forall|i0: int| 0 <= i0 < items.len() implies month_present(bs, #[trigger] items[i0]) by {
        assert(covers(keys, items[i0]));
        let j0 = choose|j: int|
            0 <= j < keys.len() && #[trigger] keys[j]
                == (items[i0].due.year, items[i0].due.month);
        assert(bucket_key(bs[j0]) == item_key(items[i0]));
        assert(month_present(bs, items[i0]));
    }
}

/// Two equal month keys name the same month of the same year.
pub proof fn lemma_month_key_injective(y1: int, m1: int, y2: int, m2: int)
    requires
        1 <= m1 <= 12,
        1 <= m2 <= 12,
        spec_month_key(y1, m1) == spec_month_key(y2, m2),
    ensures
        y1 == y2,
        m1 == m2,
{
}

/// Every record of a month's filter does fall due in that month.
pub proof fn lemma_month_filter_elems(items: Seq<Installment>, y: int, m: int)
    ensures
        forall|x: int|
            0 <= x < month_filter(items, y, m).len() ==> due_in(
                #[trigger] month_filter(items, y, m)[x],
                y,
                m,
            ),
    decreases items.len(),
{
    if items.len() > 0 {
        lemma_month_filter_elems(items.drop_last(), y, m);
        let fd = month_filter(items.drop_last(), y, m);
        let f = month_filter(items, y, m);
        assert forall|x: int| 0 <= x < f.len() implies due_in(#[trigger] f[x], y, m) by {
            if x < fd.len() {
                assert(f[x] == fd[x]);
            }
        }
    }
}

/// Law: under a sound grouping, a record with a real due month lies in
/// exactly one bucket, the one keyed by its due date's month and year.
pub proof fn lemma_installment_in_one_bucket(
    items: Seq<Installment>,
    bs: Seq<MonthBucket>,
    i: int,
)
    requires
        buckets_sound(items, bs),
        0 <= i < items.len(),
        1 <= items[i].due.month <= 12,
    ensures
        exists|j: int|
            0 <= j < bs.len() && (#[trigger] bs[j]).entries@.contains(items[i]) && bucket_key(
                bs[j],
            ) == item_key(items[i]),
        forall|j: int|
            0 <= j < bs.len() && bucket_key(#[trigger] bs[j]) != item_key(items[i])
                ==> !bs[j].entries@.contains(items[i]),
{
    assert(month_present(bs, items[i]));
    let j0 = choose|j: int| 0 <= j < bs.len() && bucket_key(#[trigger] bs[j]) == item_key(items[i]);
    assert(bucket_sound(items, bs[j0]));
    lemma_month_key_injective(
        bs[j0].year as int,
        bs[j0].month as int,
        items[i].due.year as int,
        items[i].due.month as int,
    );
    assert(due_in(items[i], bs[j0].year as int, bs[j0].month as int));
    lemma_month_filter_contains(items, bs[j0].year as int, bs[j0].month as int, i);
    assert(bs[j0].entries@.contains(items[i]));
    assert forall|j: int|
        0 <= j < bs.len() && bucket_key(#[trigger] bs[j]) != item_key(items[i])
            implies !bs[j].entries@.contains(items[i]) by {
        assert(bucket_sound(items, bs[j]));
        if bs[j].entries@.contains(items[i]) {
            let x0 = choose|x: int| 0 <= x < bs[j].entries@.len() && bs[j].entries@[x] == items[i];
            lemma_month_filter_elems(items, bs[j].year as int, bs[j].month as int);
            assert(due_in(items[i], bs[j].year as int, bs[j].month as int));
            assert(bucket_key(bs[j]) == item_key(items[i]));
        }
    }
}

/// A non-empty month filter names a record of that month.
proof fn lemma_month_filter_witness(items: Seq<Installment>, y: int, m: int)
    requires
        month_filter(items, y, m).len() > 0,
    ensures
        exists|x: int| 0 <= x < items.len() && due_in(#[trigger] items[x], y, m),
    decreases items.len(),
{
    if due_in(items.last(), y, m) {
        assert(due_in(items[items.len() - 1], y, m));
    } else {
        lemma_month_filter_witness(items.drop_last(), y, m);
        let x0 = choose|x: int| 0 <= x < items.drop_last().len() && due_in(
            #[trigger] items.drop_last()[x],
            y,
            m,
        );
        assert(due_in(items[x0], y, m));
    }
}

/// The month keys named by a run of buckets.
pub open spec fn keyset(bs: Seq<MonthBucket>) -> Set<int> {
    Set::new(|k: int| exists|j: int| 0 <= j < bs.len() && bucket_key(#[trigger] bs[j]) == k)
}

/// The month keys occurring among the records.
pub open spec fn item_keyset(items: Seq<Installment>) -> Set<int> {
    Set::new(|k: int| exists|i: int| 0 <= i < items.len() && item_key(#[trigger] items[i]) == k)
}

/// A sound grouping names exactly the months of its records.
proof fn lemma_keyset_is_item_months(items: Seq<Installment>, bs: Seq<MonthBucket>)
    requires
        buckets_sound(items, bs),
    ensures
        keyset(bs) =~= item_keyset(items),
{
    assert forall|k: int| keyset(bs).contains(k) implies item_keyset(items).contains(k) by {
        let j = choose|j: int| 0 <= j < bs.len() && bucket_key(#[trigger] bs[j]) == k;
        assert(bucket_sound(items, bs[j]));
        lemma_month_filter_witness(items, bs[j].year as int, bs[j].month as int);
        let x = choose|x: int| 0 <= x < items.len() && due_in(
            #[trigger] items[x],
            bs[j].year as int,
            bs[j].month as int,
        );
        assert(item_key(items[x]) == k);
    }
    assert forall|k: int| item_keyset(items).contains(k) implies keyset(bs).contains(k) by {
        let i = choose|i: int| 0 <= i < items.len() && item_key(#[trigger] items[i]) == k;
        assert(month_present(bs, items[i]));
        let j = choose|j: int| 0 <= j < bs.len() && bucket_key(#[trigger] bs[j]) == item_key(
            items[i],
        );
        assert(bucket_key(bs[j]) == k);
    }
}

proof fn lemma_keyset_drop_first(bs: Seq<MonthBucket>)
    requires
        bs.len() > 0,
        buckets_ordered(bs),
    ensures
        keyset(bs.drop_first()) =~= keyset(bs).remove(bucket_key(bs[0])),
{
    let t = bs.drop_first();
    assert forall|k: int| keyset(t).contains(k) implies keyset(bs).remove(
        bucket_key(bs[0]),
    ).contains(k) by {
        let j = choose|j: int| 0 <= j < t.len() && bucket_key(#[trigger] t[j]) == k;
        assert(t[j] == bs[j + 1]);
        assert(bucket_key(bs[0]) < bucket_key(bs[j + 1]));
    }
    assert forall|k: int| keyset(bs).remove(bucket_key(bs[0])).contains(k) implies keyset(
        t,
    ).contains(k) by {
        let j = choose|j: int| 0 <= j < bs.len() && bucket_key(#[trigger] bs[j]) == k;
        assert(j != 0);
        assert(t[j - 1] == bs[j]);
        assert(bucket_key(t[j - 1]) == k);
    }
}

/// Two strictly ordered runs naming the same keys agree index by index.
proof fn lemma_sorted_same_keys(a: Seq<MonthBucket>, b: Seq<MonthBucket>)
    requires
        buckets_ordered(a),
        buckets_ordered(b),
        keyset(a) == keyset(b),
    ensures
        a.len() == b.len(),
        forall|j: int| 0 <= j < a.len() ==> bucket_key(#[trigger] a[j]) == bucket_key(b[j]),
    decreases a.len(),
{
    if a.len() == 0 {
        if b.len() > 0 {
            assert(keyset(b).contains(bucket_key(b[0])));
            assert(keyset(a).contains(bucket_key(b[0])));
        }
    } else {
        assert(keyset(a).contains(bucket_key(a[0])));
        assert(keyset(b).contains(bucket_key(a[0])));
        let j = choose|j: int| 0 <= j < b.len() && bucket_key(#[trigger] b[j]) == bucket_key(a[0]);
        if j > 0 {
            assert(bucket_key(b[0]) < bucket_key(a[0]));
            assert(keyset(b).contains(bucket_key(b[0])));
            assert(keyset(a).contains(bucket_key(b[0])));
            let i = choose|i: int|
                0 <= i < a.len() && bucket_key(#[trigger] a[i]) == bucket_key(b[0]);
            if i > 0 {
                assert(bucket_key(a[0]) < bucket_key(a[i]));
            }
            assert(false);
        }
        assert(bucket_key(a[0]) == bucket_key(b[0]));
        let ta = a.drop_first();
        let tb = b.drop_first();
        assert forall|p: int, q: int| 0 <= p < q < ta.len() implies bucket_key(#[trigger] ta[p])
            < bucket_key(#[trigger] ta[q]) by {
            assert(ta[p] == a[p + 1]);
            assert(ta[q] == a[q + 1]);
        }
        assert forall|p: int, q: int| 0 <= p < q < tb.len() implies bucket_key(#[trigger] tb[p])
            < bucket_key(#[trigger] tb[q]) by {
            assert(tb[p] == b[p + 1]);
            assert(tb[q] == b[q + 1]);
        }
        lemma_keyset_drop_first(a);
        lemma_keyset_drop_first(b);
        assert(keyset(ta) =~= keyset(tb));
        lemma_sorted_same_keys(ta, tb);
        assert forall|x: int| 0 <= x < a.len() implies bucket_key(#[trigger] a[x]) == bucket_key(
            b[x],
        ) by {
            if x > 0 {
                assert(ta[x - 1] == a[x]);
                assert(tb[x - 1] == b[x]);
                assert(bucket_key(ta[x - 1]) == bucket_key(tb[x - 1]));
            }
        }
    }
}

/// Law: the grouped, chronologically ordered report of a record run is
/// unique: two sound, ordered bucket runs for the same records agree in
/// months, labels and contents. Building the report twice over one
/// collection therefore yields identical output.
pub proof fn lemma_report_unique(items: Seq<Installment>, a: Seq<MonthBucket>, b: Seq<MonthBucket>)
    requires
        report_sound(items, a),
        report_sound(items, b),
    ensures
        a.len() == b.len(),
        forall|j: int|
            0 <= j < a.len() ==> (#[trigger] a[j]).year == b[j].year && a[j].month == b[j].month
                && a[j].label@ == b[j].label@ && a[j].entries@ == b[j].entries@,
{
    lemma_keyset_is_item_months(items, a);
    lemma_keyset_is_item_months(items, b);
    assert(keyset(a) =~= keyset(b));
    lemma_sorted_same_keys(a, b);
    assert forall|j: int|
        0 <= j < a.len() implies (#[trigger] a[j]).year == b[j].year && a[j].month == b[j].month
            && a[j].label@ == b[j].label@ && a[j].entries@ == b[j].entries@ by {
        assert(bucket_sound(items, a[j]));
        assert(bucket_sound(items, b[j]));
        assert(bucket_key(a[j]) == bucket_key(b[j]));
        lemma_month_key_injective(
            a[j].year as int,
            a[j].month as int,
            b[j].year as int,
            b[j].month as int,
        );
    }
}

/// Whether `b` is one of the buckets of `bs`.
pub open spec fn in_buckets(bs: Seq<MonthBucket>, b: MonthBucket) -> bool {
    exists|k: int| 0 <= k < bs.len() && #[trigger] bs[k] == b
}

fn month_before(y1: u32, m1: u32, y2: u32, m2: u32) -> (r: bool)
    requires
        1 <= m1 <= 12,
        1 <= m2 <= 12,
    ensures
        r == (spec_month_key(y1 as int, m1 as int) < spec_month_key(y2 as int, m2 as int)),
{
    y1 < y2 || (y1 == y2 && m1 < m2)
}

/// Returns the buckets in strictly chronological order of their months.
#[verifier::rlimit(100)]
pub fn order_buckets(bs: Vec<MonthBucket>) -> (r: Vec<MonthBucket>)
    requires
        forall|j: int| 0 <= j < bs@.len() ==> 1 <= (#[trigger] bs@[j]).month <= 12,
        forall|j: int, k: int|
            0 <= j < k < bs@.len() ==> bucket_key(#[trigger] bs@[j]) != bucket_key(
                #[trigger] bs@[k],
            ),
    ensures
        buckets_ordered(r@),
        r@.len() == bs@.len(),
        forall|j: int| 0 <= j < r@.len() ==> in_buckets(bs@, #[trigger] r@[j]),
        forall|k: int| 0 <= k < bs@.len() ==> in_buckets(r@, #[trigger] bs@[k]),
{
    let ghost orig = bs@;
    let mut src = bs;
    let mut out: Vec<MonthBucket> = Vec::new();
    proof {
        assert forall|j: int| 0 <= j < src@.len() implies in_buckets(orig, #[trigger] src@[j]) by {
            assert(orig[j] == src@[j]);
        }
    }
    while src.len() > 0
        invariant
            out@.len() + src@.len() == orig.len(),
            forall|j: int| 0 <= j < orig.len() ==> 1 <= (#[trigger] orig[j]).month <= 12,
            forall|j: int| 0 <= j < out@.len() ==> 1 <= (#[trigger] out@[j]).month <= 12,
            forall|j: int| 0 <= j < out@.len() ==> in_buckets(orig, #[trigger] out@[j]),
            forall|j: int| 0 <= j < src@.len() ==> in_buckets(orig, #[trigger] src@[j]),
            forall|k: int| 0 <= k < orig.len() ==> in_buckets(out@, #[trigger] orig[k])
                || in_buckets(src@, orig[k]),
            forall|j: int, k: int|
                0 <= j < k < out@.len() ==> bucket_key(#[trigger] out@[j]) != bucket_key(
                    #[trigger] out@[k],
                ),
            forall|j: int, k: int|
                0 <= j < k < src@.len() ==> bucket_key(#[trigger] src@[j]) != bucket_key(
                    #[trigger] src@[k],
                ),
            forall|j: int, k: int|
                0 <= j < out@.len() && 0 <= k < src@.len() ==> bucket_key(#[trigger] out@[j])
                    != bucket_key(#[trigger] src@[k]),
            buckets_ordered(out@),
        decreases src@.len(),
    {
        let ghost old_src = src@;
        let ghost old_out = out@;
        let b = src.pop().unwrap();
        proof {
            assert(b == old_src.last());
            assert(1 <= b.month <= 12) by {
                assert(in_buckets(orig, old_src[old_src.len() - 1]));
                let k0 = choose|k: int|
                    0 <= k < orig.len() && #[trigger] orig[k] == old_src[old_src.len() - 1];
                assert(1 <= orig[k0].month <= 12);
            }
        }
        let mut pos: usize = 0;
        while pos < out.len() && month_before(out[pos].year, out[pos].month, b.year, b.month)
            invariant
                pos <= out@.len(),
                out@ == old_out,
                forall|j: int| 0 <= j < out@.len() ==> 1 <= (#[trigger] out@[j]).month <= 12,
                1 <= b.month <= 12,
                forall|x: int| 0 <= x < pos ==> bucket_key(#[trigger] out@[x]) < bucket_key(b),
            decreases out@.len() - pos,
        {
            pos = pos + 1;
        }
        proof {
            assert forall|x: int| pos <= x < old_out.len() implies bucket_key(#[trigger] old_out[x])
                > bucket_key(b) by {
                assert(bucket_key(old_out[x]) != bucket_key(old_src[old_src.len() - 1]));
                if x > pos {
                    assert(bucket_key(old_out[pos as int]) < bucket_key(old_out[x]));
                    assert(bucket_key(old_out[pos as int]) >= bucket_key(b));
                }
            }
        }
        out.insert(pos, b);
        proof {
            let p = pos as int;
            assert forall|j: int| 0 <= j < out@.len() implies in_buckets(orig, #[trigger] out@[j])
                && 1 <= out@[j].month <= 12 by {
                if j < p {
                    assert(out@[j] == old_out[j]);
                } else if j == p {
                    assert(out@[j] == b);
                    assert(in_buckets(orig, old_src[old_src.len() - 1]));
                } else {
                    assert(out@[j] == old_out[j - 1]);
                }
            }
            assert forall|j: int| 0 <= j < src@.len() implies in_buckets(orig, #[trigger] src@[j]) by {
                assert(src@[j] == old_src[j]);
                assert(in_buckets(orig, old_src[j]));
            }
            assert forall|k: int| 0 <= k < orig.len() implies in_buckets(out@, #[trigger] orig[k])
                || in_buckets(src@, orig[k]) by {
                if in_buckets(old_out, orig[k]) {
                    let j0 = choose|j: int| 0 <= j < old_out.len() && #[trigger] old_out[j] == orig[k];
                    if j0 < p {
                        assert(out@[j0] == orig[k]);
                    } else {
                        assert(out@[j0 + 1] == orig[k]);
                    }
                } else {
                    let j0 = choose|j: int| 0 <= j < old_src.len() && #[trigger] old_src[j] == orig[k];
                    if j0 < old_src.len() - 1 {
                        assert(src@[j0] == orig[k]);
                    } else {
                        assert(out@[p] == orig[k]);
                    }
                }
            }
            assert forall|j: int, k: int| 0 <= j < k < out@.len() implies bucket_key(
                #[trigger] out@[j],
            ) != bucket_key(#[trigger] out@[k]) && bucket_key(out@[j]) < bucket_key(out@[k]) by {
                let a = if j < p { old_out[j] } else if j == p { b } else { old_out[j - 1] };
                let c = if k < p { old_out[k] } else if k == p { b } else { old_out[k - 1] };
                assert(out@[j] == a);
                assert(out@[k] == c);
                if j == p {
                    assert(p <= k - 1 < old_out.len());
                    assert(bucket_key(old_out[k - 1]) > bucket_key(b));
                } else if k == p {
                    assert(bucket_key(old_out[j]) < bucket_key(b));
                } else if j < p && k > p {
                    assert(bucket_key(old_out[j]) < bucket_key(b));
                    assert(bucket_key(old_out[k - 1]) > bucket_key(b));
                }
            }
            assert forall|j: int, k: int|
                0 <= j < out@.len() && 0 <= k < src@.len() implies bucket_key(#[trigger] out@[j])
                != bucket_key(#[trigger] src@[k]) by {
                assert(src@[k] == old_src[k]);
                if j < p {
                    assert(out@[j] == old_out[j]);
                } else if j == p {
                    assert(out@[j] == b);
                    assert(bucket_key(old_src[k]) != bucket_key(old_src[old_src.len() - 1]));
                } else {
                    assert(out@[j] == old_out[j - 1]);
                }
            }
        }
    }
    out
}

} // verus!
