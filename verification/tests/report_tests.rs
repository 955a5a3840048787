use commission_report::aggregate::{aggregate, order_buckets};
use commission_report::allocate::{allocate, Installment, Invoice};
use commission_report::date::{add_days, month_label, u64_to_string, Date};
use commission_report::interval::{parse_interval, IntervalSpec, ParseError};
use commission_report::report::build_report;
use commission_report::text::{cents_text, date_text, parse_date_text};

fn invoice(emission: Date, number: &str, client: &str, interval: &str, cents: u64) -> Invoice {
    Invoice {
        emission,
        number: number.to_string(),
        client: client.to_string(),
        interval_text: interval.to_string(),
        value_cents: cents,
    }
}

fn date(y: u32, m: u32, d: u32) -> Date {
    Date { year: y, month: m, day: d }
}

#[test]
fn parse_marker_is_immediate() {
    let r = parse_interval("ANTECIPADO / A VISTA [2]");
    assert!(matches!(r, Ok(IntervalSpec::Immediate)));
}

#[test]
fn parse_unmatched_text_is_immediate() {
    assert!(matches!(parse_interval(""), Ok(IntervalSpec::Immediate)));
    assert!(matches!(parse_interval("   "), Ok(IntervalSpec::Immediate)));
    assert!(matches!(parse_interval("a prazo"), Ok(IntervalSpec::Immediate)));
}

#[test]
fn parse_offsets() {
    match parse_interval("30/60/90") {
        Ok(IntervalSpec::Scheduled { offsets, rate }) => {
            assert_eq!(offsets, vec![30, 60, 90]);
            assert_eq!(rate, 7);
        }
        other => panic!("unexpected parse outcome: {:?}", other),
    }
    match parse_interval("45 DDL") {
        Ok(IntervalSpec::Scheduled { offsets, rate }) => {
            assert_eq!(offsets, vec![45]);
            assert_eq!(rate, 7);
        }
        other => panic!("unexpected parse outcome: {:?}", other),
    }
}

#[test]
fn parse_rate_override() {
    match parse_interval("30/60 5%") {
        Ok(IntervalSpec::Scheduled { offsets, rate }) => {
            assert_eq!(offsets, vec![30, 60]);
            assert_eq!(rate, 5);
        }
        other => panic!("unexpected parse outcome: {:?}", other),
    }
}

#[test]
fn parse_malformed_offsets_is_fatal() {
    assert_eq!(parse_interval("30/60/").unwrap_err(), ParseError::MalformedOffsets);
    assert_eq!(parse_interval("30//60").unwrap_err(), ParseError::MalformedOffsets);
    assert_eq!(parse_interval("1234").unwrap_err(), ParseError::MalformedOffsets);
}

#[test]
fn immediate_allocation_p8() {
    // Value 500.00 under the cash marker: one installment of 500.00, due 30
    // days after emission, commission 35.00.
    let inv = invoice(date(2024, 1, 10), "101", "ACME", "ANTECIPADO / A VISTA [2]", 50_000);
    let sched = parse_interval(&inv.interval_text).unwrap();
    let records = allocate(&inv, &sched);
    assert_eq!(records.len(), 1);
    assert_eq!(records[0].installment_cents, 50_000);
    assert_eq!(records[0].commission_cents, 3_500);
    assert_eq!(records[0].due, date(2024, 2, 9));
    assert_eq!(records[0].client, "ACME");
}

#[test]
fn scheduled_allocation_even_split() {
    let inv = invoice(date(2024, 1, 10), "102", "ACME", "30/60/90", 30_000);
    let sched = parse_interval(&inv.interval_text).unwrap();
    let records = allocate(&inv, &sched);
    assert_eq!(records.len(), 3);
    for r in &records {
        assert_eq!(r.installment_cents, 10_000);
        assert_eq!(r.commission_cents, 700);
    }
}

#[test]
fn scheduled_allocation_remainder_to_first() {
    // 1000.00 over three installments: the first carries the remainder, so
    // the three sum back to the invoice value exactly.
    let inv = invoice(date(2024, 1, 10), "103", "ACME", "30/60/90", 100_000);
    let sched = parse_interval(&inv.interval_text).unwrap();
    let records = allocate(&inv, &sched);
    assert_eq!(records.len(), 3);
    assert_eq!(records[0].installment_cents, 33_334);
    assert_eq!(records[1].installment_cents, 33_333);
    assert_eq!(records[2].installment_cents, 33_333);
    let total: u64 = records.iter().map(|r| r.installment_cents).sum();
    assert_eq!(total, 100_000);
}

#[test]
fn rate_override_applies_to_every_installment() {
    let inv = invoice(date(2024, 1, 10), "104", "ACME", "30/60 5%", 20_000);
    let sched = parse_interval(&inv.interval_text).unwrap();
    let records = allocate(&inv, &sched);
    assert_eq!(records.len(), 2);
    for r in &records {
        assert_eq!(r.installment_cents, 10_000);
        assert_eq!(r.commission_cents, 500);
    }
}

#[test]
fn end_to_end_p7() {
    // Invoice emitted 2024-01-10, value 1000.00, interval "30/60/90": due
    // 2024-02-09, 2024-03-10, 2024-04-09, bucketed into February, March and
    // April 2024, each with commission 23.33.
    let invoices = vec![invoice(date(2024, 1, 10), "105", "ACME", "30/60/90", 100_000)];
    let report = build_report(&invoices).unwrap();
    assert_eq!(report.len(), 3);
    assert_eq!(report[0].label, "February 2024");
    assert_eq!(report[1].label, "March 2024");
    assert_eq!(report[2].label, "April 2024");
    assert_eq!(report[0].entries[0].due, date(2024, 2, 9));
    assert_eq!(report[1].entries[0].due, date(2024, 3, 10));
    assert_eq!(report[2].entries[0].due, date(2024, 4, 9));
    for b in &report {
        assert_eq!(b.entries.len(), 1);
        assert_eq!(b.entries[0].commission_cents, 2_333);
    }
    assert_eq!(report[0].entries[0].installment_cents, 33_334);
    assert_eq!(cents_text(report[0].entries[0].commission_cents), "23.33");
}

#[test]
fn bucket_order_is_chronological_p6() {
    // Months arriving as March 2024, January 2025, December 2023 come out
    // as December 2023, March 2024, January 2025.
    let invoices = vec![
        invoice(date(2024, 2, 10), "1", "A", "ANTECIPADO / A VISTA [2]", 1_000),
        invoice(date(2024, 12, 20), "2", "B", "ANTECIPADO / A VISTA [2]", 1_000),
        invoice(date(2023, 11, 15), "3", "C", "ANTECIPADO / A VISTA [2]", 1_000),
    ];
    let report = build_report(&invoices).unwrap();
    let labels: Vec<&str> = report.iter().map(|b| b.label.as_str()).collect();
    assert_eq!(labels, vec!["December 2023", "March 2024", "January 2025"]);
}

#[test]
fn build_report_fails_on_malformed_interval() {
    let invoices = vec![
        invoice(date(2024, 1, 10), "1", "A", "30/60", 1_000),
        invoice(date(2024, 1, 11), "2", "B", "30/60/", 1_000),
    ];
    assert_eq!(build_report(&invoices).unwrap_err(), ParseError::MalformedOffsets);
}

#[test]
fn same_month_shares_a_bucket_in_input_order() {
    let invoices = vec![
        invoice(date(2024, 1, 10), "1", "A", "ANTECIPADO / A VISTA [2]", 1_000),
        invoice(date(2024, 1, 20), "2", "B", "ANTECIPADO / A VISTA [2]", 2_000),
    ];
    let report = build_report(&invoices).unwrap();
    assert_eq!(report.len(), 1);
    assert_eq!(report[0].label, "February 2024");
    assert_eq!(report[0].entries.len(), 2);
    assert_eq!(report[0].entries[0].number, "1");
    assert_eq!(report[0].entries[1].number, "2");
}

#[test]
fn pipeline_is_idempotent_p9() {
    let invoices = vec![
        invoice(date(2024, 1, 10), "1", "A", "30/60/90", 100_000),
        invoice(date(2024, 3, 5), "2", "B", "ANTECIPADO / A VISTA [2]", 50_000),
        invoice(date(2023, 12, 31), "3", "C", "45 7%", 7_777),
    ];
    let r1 = build_report(&invoices).unwrap();
    let r2 = build_report(&invoices).unwrap();
    assert_eq!(r1.len(), r2.len());
    for (a, b) in r1.iter().zip(r2.iter()) {
        assert_eq!(a.year, b.year);
        assert_eq!(a.month, b.month);
        assert_eq!(a.label, b.label);
        assert_eq!(a.entries.len(), b.entries.len());
        for (x, y) in a.entries.iter().zip(b.entries.iter()) {
            assert_eq!(x.number, y.number);
            assert_eq!(x.client, y.client);
            assert_eq!(x.due, y.due);
            assert_eq!(x.installment_cents, y.installment_cents);
            assert_eq!(x.commission_cents, y.commission_cents);
        }
    }
}

#[test]
fn aggregate_and_order_directly() {
    let mk = |y: u32, m: u32, d: u32| Installment {
        emission: date(2024, 1, 1),
        number: "1".to_string(),
        client: "A".to_string(),
        due: date(y, m, d),
        installment_cents: 100,
        commission_cents: 7,
    };
    let items = vec![mk(2024, 3, 5), mk(2025, 1, 9), mk(2023, 12, 1), mk(2024, 3, 20)];
    let buckets = aggregate(&items);
    assert_eq!(buckets.len(), 3);
    let ordered = order_buckets(buckets);
    let labels: Vec<&str> = ordered.iter().map(|b| b.label.as_str()).collect();
    assert_eq!(labels, vec!["December 2023", "March 2024", "January 2025"]);
    assert_eq!(ordered[1].entries.len(), 2);
    assert_eq!(ordered[1].entries[0].due, date(2024, 3, 5));
    assert_eq!(ordered[1].entries[1].due, date(2024, 3, 20));
}

#[test]
fn date_arithmetic() {
    assert_eq!(add_days(date(2024, 2, 28), 1), date(2024, 2, 29));
    assert_eq!(add_days(date(2023, 2, 28), 1), date(2023, 3, 1));
    assert_eq!(add_days(date(2024, 12, 31), 1), date(2025, 1, 1));
    assert_eq!(add_days(date(2024, 1, 10), 30), date(2024, 2, 9));
    assert_eq!(add_days(date(2024, 1, 10), 0), date(2024, 1, 10));
}

#[test]
fn text_forms() {
    assert_eq!(month_label(2024, 3), "March 2024");
    assert_eq!(u64_to_string(0), "0");
    assert_eq!(u64_to_string(10_203), "10203");
    assert_eq!(cents_text(33_334), "333.34");
    assert_eq!(cents_text(5), "0.05");
    assert_eq!(cents_text(3_500), "35.00");
    assert_eq!(date_text(date(2024, 2, 9)), "02/09/2024");
    assert_eq!(parse_date_text("01/10/2024"), Some(date(2024, 1, 10)));
    assert_eq!(parse_date_text("13/01/2024"), None);
    assert_eq!(parse_date_text("02/30/2024"), None);
    assert_eq!(parse_date_text("1/10/2024"), None);
    assert_eq!(parse_date_text("02/29/2024"), Some(date(2024, 2, 29)));
    assert_eq!(parse_date_text("02/29/2023"), None);
}
