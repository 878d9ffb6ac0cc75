use rhomeaccount_core::account::{ChartOfAccounts, OMADES_TYPES_GR};
use rhomeaccount_core::date::Date;
use rhomeaccount_core::transaction::{sort_transactions, Transaction};
use rhomeaccount_core::transaction_line::TransactionLine;

fn chart() -> ChartOfAccounts {
    ChartOfAccounts::new(
        "gr",
        OMADES_TYPES_GR
            .iter()
            .map(|(a, b)| (a.to_string(), b.to_string()))
            .collect(),
    )
}

#[test]
fn test_tr001() {
    let tl1 = TransactionLine::new("Aa.Bb.Cc", -10000, "");
    let tl2 = TransactionLine::new("Aa.Bb.Cc", -10000, "");
    assert_eq!(tl1, tl2);
    assert_eq!(tl1.debit(), 0);
    assert_eq!(tl1.credit(), 10000);
    assert_eq!(tl1.value, -10000);
    assert_eq!(tl1.mul(-200), TransactionLine::new("Aa.Bb.Cc", 20000, ""));
    assert_eq!(tl2.mul(150), TransactionLine::new("Aa.Bb.Cc", -15000, ""));
}

#[test]
fn test_delta_reverse() {
    let cht = chart();
    // "70..." is esoda => reversed delta
    let l1 = TransactionLine::new("70.00.001", 5000, "");
    assert_eq!(l1.delta(&cht), -5000);
    // "20..." is apothemata => plain delta
    let l2 = TransactionLine::new("20.00.001", 5000, "");
    assert_eq!(l2.delta(&cht), 5000);
}

#[test]
fn test_transaction_01() {
    let _cht = chart();
    let mut tr1 = Transaction::try_new("2020-01-10", "", "Σουπερμαρκετ πόπη", 0).unwrap();
    tr1.add_line("20.00.00.024", 10000, "");
    tr1.add_line("54.00.20.024", 2400, "");
    tr1.add_last_line("50.00.00.001", "").unwrap();
    assert_eq!(tr1.uid(), "202001101240");
    assert_eq!(tr1.value(), 12400);
}

#[test]
fn test_transaction_comparison() {
    let _cht = chart();
    let mut tr1 = Transaction::try_new("2020-01-15", "", "Σουπερμαρκετ πόπη", 1).unwrap();
    tr1.add_line("20.00.00.024", 10000, "");
    tr1.add_line("54.00.20.024", 2400, "");
    tr1.add_last_line("50.00.00.001", "").unwrap();

    let mut tr2 = Transaction::try_new("2020-01-12", "", "Σουπερμαρκετ πόπη", 2).unwrap();
    tr2.add_line("20.00.00.024", 10000, "");
    tr2.add_line("54.00.20.024", 2400, "");
    tr2.add_last_line("50.00.00.001", "").unwrap();

    assert!((tr1.date, tr1.id) > (tr2.date, tr2.id));
}

#[test]
fn line_comment_is_trimmed_and_mul_rounds_half_away() {
    let l = TransactionLine::new("20.00", 101, "  σχόλιο ");
    assert_eq!(l.sxolio, "σχόλιο");
    assert_eq!(l.mul(50).value, 51);
    assert_eq!(TransactionLine::new("20.00", -101, "").mul(50).value, -51);
}

#[test]
fn checked_add_needs_the_same_account() {
    let a = TransactionLine::new("20.00", 100, "x");
    let b = TransactionLine::new("20.00", 250, "y");
    let c = TransactionLine::new("30.00", 1, "");
    assert_eq!(a.checked_add(&b).unwrap().value, 350);
    assert_eq!(a.checked_add(&b).unwrap().sxolio, "x");
    assert_eq!(
        a.checked_add(&c),
        Err("For addition accounts must me the same".to_string())
    );
}

#[test]
fn display_string_pads_columns() {
    let l = TransactionLine::new("20.00", 123456, "abc");
    let s = l.to_display_string();
    assert_eq!(
        s,
        format!("{:<30} {:<30} {:>14} {:>14}", "20.00", "abc", "1.234,56", "")
    );
}

#[test]
fn try_new_rejects_a_bad_date() {
    let r = Transaction::try_new("2022-13-45", "", "x", 0);
    assert_eq!(
        r.err(),
        Some("'2022-13-45' is not a valid ISO date".to_string())
    );
}

#[test]
fn set_id_only_once() {
    let mut t = Transaction::try_new("2022-01-01", "", "x", 0).unwrap();
    assert!(t.set_id(5).is_ok());
    assert_eq!(t.id, 5);
    assert_eq!(
        t.set_id(6),
        Err("Transaction 5 already has an id, cannot set it to 6".to_string())
    );
    assert_eq!(t.id, 5);
}

#[test]
fn add_last_line_balances_or_fails() {
    let mut t = Transaction::try_new("2022-01-01", "", "x", 0).unwrap();
    assert_eq!(
        t.add_last_line("50.00", ""),
        Err("Transaction is already balanced".to_string())
    );
    t.add_line("20.00", 3333, "");
    t.add_line("54.00", 800, "");
    assert!(!t.is_balanced());
    t.add_last_line("50.00", "").unwrap();
    assert!(t.is_balanced());
    assert_eq!(t.rest(), 0);
    assert_eq!(t.lines[2].value, -4133);
    assert_eq!(t.total(), 4133);
    assert_eq!(t.last_account(), Ok("50.00"));
}

#[test]
fn add_connected_lines_adds_the_percentage() {
    let mut t = Transaction::try_new("2022-01-01", "", "x", 0).unwrap();
    t.add_connected_lines("20.00", "54.00", 10000, 2400);
    assert_eq!(t.lines.len(), 2);
    assert_eq!(t.lines[1].value, 2400);
    assert_eq!(t.lines[0].sxolio, "");
    assert_eq!(t.lines[1].sxolio, "");
    // "54.00" falls under "5" (liabilities) as well: its delta changes sign
    assert_eq!(t.last_delta(&chart()), -2400);
}

#[test]
fn uid_rounds_tenths_half_to_even() {
    let mut t = Transaction::try_new("2021-03-04", "Α 12", "x", 0).unwrap();
    t.add_line("20.00", 125, "");
    t.add_last_line("50.00", "").unwrap();
    // 1.25 -> 1.2 (half to even), point removed
    assert_eq!(t.uid(), "20210304Α1212");
}

#[test]
fn sort_transactions_by_date_then_id() {
    let a = Transaction::try_new("2020-01-15", "", "a", 1).unwrap();
    let b = Transaction::try_new("2020-01-12", "", "b", 3).unwrap();
    let c = Transaction::try_new("2020-01-12", "", "c", 2).unwrap();
    let sorted = sort_transactions(vec![&a, &b, &c]);
    let ids: Vec<i32> = sorted.iter().map(|t| t.id).collect();
    assert_eq!(ids, vec![2, 3, 1]);
}

#[test]
fn get_lines_by_account_keeps_a_running_total() {
    let mut t = Transaction::try_new("2020-01-15", "Π1", "Αγορά", 7).unwrap();
    t.add_line("20.00.01", 1000, "πρώτο");
    t.add_line("30.00", 500, "");
    t.add_line("20.00.02", -300, "");
    let mut running: i128 = 50;
    let mut found = Vec::new();
    t.get_lines_by_account("20.00", &mut running, &mut found);
    assert_eq!(running, 750);
    assert_eq!(found.len(), 2);
    assert_eq!(found[0].0, 7);
    assert_eq!(found[0].1, Date::parse_iso("2020-01-15").unwrap());
    assert_eq!(found[0].3, "Αγορά, πρώτο");
    assert_eq!(found[0].4, 1000);
    assert_eq!(found[0].6, 1050);
    assert_eq!(found[1].3, "Αγορά");
    assert_eq!(found[1].5, 300);
    assert_eq!(found[1].6, 750);
}

#[test]
fn default_transaction_is_dated_1970() {
    let t = Transaction::default();
    assert_eq!(t.id, 0);
    assert_eq!(t.date.format("%Y-%m-%d"), "1970-01-01");
    assert!(t.lines.is_empty());
}

#[test]
fn balancing_amount_must_fit_a_line() {
    let mut t = Transaction::try_new("2022-01-01", "", "x", 0).unwrap();
    t.add_line("20.00", i64::MIN, "");
    assert_eq!(
        t.add_last_line("50.00", ""),
        Err("Balancing amount out of range".to_string())
    );
    assert_eq!(t.lines.len(), 1);
    let mut u = Transaction::try_new("2022-01-01", "", "x", 0).unwrap();
    u.add_line("20.00", i64::MAX, "");
    u.add_line("20.00", 1, "");
    u.add_last_line("50.00", "").unwrap();
    assert_eq!(u.lines[2].value, i64::MIN);
}

#[test]
fn last_account_of_an_empty_transaction() {
    let t = Transaction::try_new("2022-01-01", "", "x", 0).unwrap();
    assert_eq!(t.last_account(), Err("Impossible value".to_string()));
    assert_eq!(t.last_delta(&chart()), 0);
}

#[test]
fn total_credit_sums_the_credit_sides() {
    let mut t = Transaction::try_new("2022-01-01", "", "x", 0).unwrap();
    t.add_line("20.00", 10000, "");
    t.add_line("54.00", 2400, "");
    t.add_line("50.00", -12400, "");
    assert_eq!(t.total(), 12400);
    assert_eq!(t.total_credit(), 12400);
    let mut u = Transaction::try_new("2022-01-01", "", "x", 0).unwrap();
    u.add_line("20.00", -300, "");
    u.add_line("20.01", -200, "");
    assert_eq!(u.total(), 0);
    assert_eq!(u.total_credit(), 500);
}
