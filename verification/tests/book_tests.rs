use rhomeaccount_core::book::Book;
use rhomeaccount_core::date::{date_of_clock, Date};
use rhomeaccount_core::date_groups::Grouping;
use rhomeaccount_core::parser_text::{open_book, parse_imerologio};
use rhomeaccount_core::transaction::Transaction;

const METADATA: &str = "@ test book\n\
> Ταμείο pagia\n\
> Πιστωτές ypoxreoseis\n\
> Εξοδα ejoda\n\
> Εσοδα esoda\n\
+ Ταμείο.Μετρητά\n\
+ Ταμείο.Τράπεζα\n\
+ Εσοδα.Μισθοί\n\
+ Εξοδα.Ενοίκιο\n\
+ Εξοδα.Ρεύμα\n\
+ Πιστωτές.ΔΕΗ\n";

const JOURNAL: &str = "j-normal\n\
2022-01-10 Μισθός\n\
\x20 Ταμείο.Τράπεζα     1.500,00\n\
\x20 Εσοδα.Μισθοί\n\
2022-01-12 Ενοίκιο\n\
\x20 Εξοδα.Ενοίκιο     400,00\n\
\x20 Ταμείο.Τράπεζα\n\
2022-03-02 ΔΕΗ\n\
\x20 Εξοδα.Ρεύμα     80,25\n\
\x20 Πιστωτές.ΔΕΗ\n\
2022-02-20 Ανάληψη\n\
\x20 Ταμείο.Μετρητά     200,00\n\
\x20 Ταμείο.Τράπεζα\n";

fn book() -> Book {
    let (mut book, declared) = open_book(METADATA).unwrap();
    let mut errors = Vec::new();
    parse_imerologio(&mut book, &declared, &mut errors, "202201", JOURNAL);
    assert!(errors.is_empty(), "errors: {:?}", errors);
    book
}

#[test]
fn test_parse_book01_is_balanced() {
    let mybook = book();
    assert!(mybook.is_balanced().is_ok());
    assert!(mybook.get_transaction(4).is_some());
    assert!(mybook.get_transaction(5).is_none());
}

#[test]
fn test_ypoloipo_and_isozygio() {
    let book = book();
    let iso = book.model_isozygio(None, None).unwrap();
    assert!(!iso.is_empty());
    assert!(iso.iter().all(|row| !row[0].is_empty()));
    assert!(
        iso.iter().all(|row| !row[1].is_empty()),
        "unexpected zero balance (f2gr renders 0 as an empty string): {:?}",
        iso.iter().find(|row| row[1].is_empty())
    );
}

#[test]
fn test_kartella_runs() {
    let book = book();
    let lines = book.kartella("Ταμείο", None, None);
    assert!(!lines.is_empty());
    // last running total equals the full balance
    let last = lines.last().unwrap();
    assert_eq!(last.tvalue, book.ypoloipo("Ταμείο", None));
}

#[test]
fn test_time_series() {
    let book = book();
    let ts = book.time_series("Εξοδα", Grouping::YearMonth, None, None);
    assert!(ts.is_some());
    let ts = ts.unwrap();
    assert!(ts.iter().all(|(k, _, _)| k.len() == 4 || k.len() == 5));
}

#[test]
fn kartella_in_date_order_with_running_totals() {
    let book = book();
    let lines = book.kartella("Ταμείο.Τράπεζα", None, None);
    let values: Vec<i64> = lines.iter().map(|l| l.value).collect();
    assert_eq!(values, vec![150000, -40000, -20000]);
    let totals: Vec<i128> = lines.iter().map(|l| l.tvalue).collect();
    assert_eq!(totals, vec![150000, 110000, 90000]);
    assert_eq!(lines[2].id, 4);
    assert_eq!(lines[2].tdebit, 150000);
    assert_eq!(lines[2].tcredit, 60000);
    let model = book.model_kartella("Ταμείο.Τράπεζα", None, None);
    assert_eq!(model.len(), 3);
    assert_eq!(model[0][0], "4");
    assert_eq!(model[0][1], "2022-02-20");
    assert_eq!(model[0][3], "200,00");
    assert_eq!(model[0][4], "900,00");
    assert_eq!(model[0][8], "-200.00");
    let after = book.kartella("Ταμείο.Τράπεζα", Some("2022-01-11"), Some("2022-01-31"));
    assert_eq!(after.len(), 1);
    assert_eq!(after[0].tvalue, -40000);
}

#[test]
fn balance_up_to_a_date() {
    let book = book();
    assert_eq!(book.ypoloipo("Ταμείο", None), 110000);
    assert_eq!(book.ypoloipo("Ταμείο", Some("2022-01-31")), 110000);
    assert_eq!(book.ypoloipo("Ταμείο.Μετρητά", Some("2022-01-31")), 0);
    assert_eq!(book.ypoloipo("Εσοδα", None), -150000);
    // a bound that is not a date bounds nothing
    assert_eq!(book.ypoloipo("Ταμείο", Some("nonsense")), 110000);
}

#[test]
fn trial_balance_plain_and_tree() {
    let book = book();
    let plain = book.isozygio_plain(None, None);
    let names: Vec<&str> = plain.iter().map(|(k, _)| k.as_str()).collect();
    assert_eq!(
        names,
        vec![
            "Εξοδα.Ενοίκιο",
            "Εξοδα.Ρεύμα",
            "Εσοδα.Μισθοί",
            "Πιστωτές.ΔΕΗ",
            "Ταμείο.Μετρητά",
            "Ταμείο.Τράπεζα"
        ]
    );
    let mist = &plain[2].1;
    assert_eq!((mist.tvalue, mist.tdebit, mist.tcredit, mist.tdelta), (-150000, 0, 150000, 150000));
    let tree = book.isozygio_tree(None, None).unwrap();
    let tameio = tree.iter().find(|(k, _)| k == "Ταμείο").unwrap();
    assert_eq!(tameio.1.tvalue, 110000);
    assert_eq!(tameio.1.tdebit, 170000);
    let exoda = tree.iter().find(|(k, _)| k == "Εξοδα").unwrap();
    assert_eq!(exoda.1.tvalue, 48025);
    assert_eq!(tree.len(), 10);
    let rows = book.model_isozygio(None, None).unwrap();
    assert_eq!(rows[0], ["Εξοδα".to_string(), "480,25".to_string()]);
    assert_eq!(rows[3], ["Εσοδα".to_string(), "-1.500,00".to_string()]);
}

#[test]
fn trial_tree_reports_an_account_outside_the_chart() {
    let mut book = book();
    let mut t = Transaction::try_new("2022-05-01", "", "x", 0).unwrap();
    t.add_line("Ζ.άγνωστος", 100, "");
    t.add_line("Α.άγνωστος", -100, "");
    book.add_transaction(t).unwrap();
    assert_eq!(
        book.isozygio_tree(None, None).err(),
        Some("Account Α.άγνωστος not fount in chart of accounts".to_string())
    );
    assert!(book.model_isozygio(None, None).is_err());
    // the span can leave it out
    assert!(book.isozygio_tree(None, Some("2022-04-30")).is_ok());
}

#[test]
fn time_series_by_month_fills_the_gaps() {
    let book = book();
    let ts = book
        .time_series("Ταμείο.Τράπεζα", Grouping::YearMonth, None, None)
        .unwrap();
    assert_eq!(
        ts,
        vec![
            ("2201".to_string(), 110000, 110000),
            ("2202".to_string(), 90000, -20000)
        ]
    );
    let q = book.time_series("Εξοδα", Grouping::Trimino, None, None).unwrap();
    assert_eq!(q, vec![("221".to_string(), 48025, 48025)]);
    assert!(book
        .time_series("Κανένας", Grouping::Year, None, None)
        .is_none());
}

#[test]
fn monthly_aggregation_with_a_closed_balance() {
    let book = book();
    // the rent account's balance is not zero: the months run to eos
    let m = book.monthly_aggregation_on(
        "Εξοδα.Ενοίκιο",
        Some("2022-03-15"),
        Date::parse_iso("2030-01-01").unwrap(),
    );
    assert_eq!(
        m,
        vec![
            ("202201".to_string(), 40000, 40000),
            ("202202".to_string(), 40000, 0),
            ("202203".to_string(), 40000, 0)
        ]
    );
    // without eos the months run to today
    let t = book.monthly_aggregation_on("Εξοδα.Ενοίκιο", None, Date::parse_iso("2022-02-10").unwrap());
    assert_eq!(t.len(), 2);
    assert!(book.monthly_aggregation("Κανένας", None).unwrap().is_empty());
}

#[test]
fn monthly_aggregation_with_eos_does_not_need_the_clock() {
    let book = book();
    let m = book.monthly_aggregation("Εξοδα.Ενοίκιο", Some("2022-03-15")).unwrap();
    let on = book.monthly_aggregation_on(
        "Εξοδα.Ενοίκιο",
        Some("2022-03-15"),
        Date::parse_iso("1999-12-31").unwrap(),
    );
    assert_eq!(m, on);
    assert_eq!(m.len(), 3);
}

#[test]
fn monthly_aggregation_without_eos_runs_to_this_month() {
    let book = book();
    let today = rhomeaccount_core::date::today().unwrap();
    let m = book.monthly_aggregation("Εξοδα.Ενοίκιο", None).unwrap();
    assert_eq!(m, book.monthly_aggregation_on("Εξοδα.Ενοίκιο", None, today));
    assert!(today.year() >= 2024);
}

#[test]
fn monthly_aggregation_stops_at_last_month_when_balance_is_nil() {
    let mut book = book();
    let mut t = Transaction::try_new("2022-04-03", "", "Πληρωμή ΔΕΗ", 0).unwrap();
    t.add_line("Πιστωτές.ΔΕΗ", 8025, "");
    t.add_line("Ταμείο.Μετρητά", -8025, "");
    book.add_transaction(t).unwrap();
    let m = book.monthly_aggregation_on("Πιστωτές", None, Date::parse_iso("2030-01-01").unwrap());
    assert_eq!(
        m,
        vec![
            ("202203".to_string(), 8025, 8025),
            ("202204".to_string(), 0, -8025)
        ]
    );
}

#[test]
fn acclines_carry_delta_debit_credit() {
    let book = book();
    let lines = book.acclines("Εσοδα", None, None);
    assert_eq!(lines.len(), 1);
    let l = &lines[0];
    assert_eq!(l.0, 1);
    assert_eq!(l.4, "Εσοδα.Μισθοί");
    assert_eq!((l.6, l.7, l.8, l.9), (-150000, 150000, 0, 150000));
}

#[test]
fn add_transaction_assigns_ids_in_order() {
    let mut book = book();
    let t = Transaction::try_new("2022-06-01", "", "x", 0).unwrap();
    assert_eq!(book.add_transaction(t), Ok(5));
    let t2 = Transaction::try_new("2022-06-01", "", "y", 9).unwrap();
    assert_eq!(
        book.add_transaction(t2),
        Err("Transaction 9 already has an id, cannot set it to 6".to_string())
    );
    assert_eq!(book.transactions.len(), 5);
    assert_eq!(book.get_transaction(5).unwrap().perigrafi, "x");
    book.get_transaction_mut(5).unwrap().add_line("Ταμείο.Μετρητά", 1, "");
    assert_eq!(
        book.is_balanced(),
        Err("Transaction 5 2022-06-01 x is not balanced".to_string())
    );
}

#[test]
fn validations_are_recorded() {
    let mut book = book();
    book.add_validation(("2022-01-31".to_string(), "Ταμείο".to_string(), 110000));
    assert_eq!(book.validations.len(), 1);
    assert_eq!(book.validations[0].2, 110000);
}

#[test]
fn transactions_filter_by_span() {
    let book = book();
    let ids: Vec<i32> = book
        .transactions_filter(Some("2022-01-12"), Some("2022-02-28"))
        .iter()
        .map(|t| t.id)
        .collect();
    assert_eq!(ids, vec![2, 4]);
}

#[test]
fn double_entry_sums_to_zero() {
    let book = book();
    let plain = book.isozygio_plain(None, None);
    let value: i128 = plain.iter().map(|(_, t)| t.tvalue).sum();
    let debit: i128 = plain.iter().map(|(_, t)| t.tdebit).sum();
    let credit: i128 = plain.iter().map(|(_, t)| t.tcredit).sum();
    assert_eq!(value, 0);
    assert_eq!(debit, credit);
    assert_eq!(debit, 150000 + 40000 + 8025 + 20000);
}

#[test]
fn checked_reports_run_where_the_dates_allow() {
    let book = book();
    let ts = book
        .time_series_checked("Ταμείο.Τράπεζα", Grouping::YearMonth, None, None)
        .unwrap()
        .unwrap();
    assert_eq!(ts.len(), 2);
    let m = book.monthly_aggregation_checked("Εξοδα.Ενοίκιο", Some("2022-02-01")).unwrap();
    assert_eq!(m.len(), 2);
    assert!(book
        .monthly_aggregation_checked("Εξοδα.Ενοίκιο", Some("αβ"))
        .is_err());
    // with nothing left on the account the month of eos is never read
    assert!(book
        .monthly_aggregation_checked("Κανένας", Some("αβ"))
        .unwrap()
        .is_empty());
}

#[test]
fn series_on_the_last_date_is_refused() {
    let mut book = book();
    let mut t = Transaction {
        id: 0,
        date: Date::from_ymd(262142, 12, 31).unwrap(),
        parastatiko: String::new(),
        perigrafi: "x".to_string(),
        lines: Vec::new(),
    };
    t.add_line("Ταμείο.Μετρητά", 1, "");
    t.add_line("Εσοδα.Μισθοί", -1, "");
    book.add_transaction(t).unwrap();
    assert!(book
        .time_series_checked("Ταμείο.Μετρητά", Grouping::Year, None, None)
        .is_err());
}

#[test]
fn series_ends_at_the_card_total() {
    let book = book();
    for (acc, g) in [
        ("Εξοδα", Grouping::Trimino),
        ("Ταμείο", Grouping::YearMonth),
        ("Εσοδα", Grouping::Year),
        ("Πιστωτές", Grouping::Ejamino),
    ] {
        let card = book.kartella(acc, None, None);
        let series = book.time_series(acc, g, None, None).unwrap();
        assert_eq!(series.last().unwrap().1, card.last().unwrap().tdelta);
    }
}

#[test]
fn tree_levels_add_up_their_accounts() {
    let book = book();
    let plain = book.isozygio_plain(None, None);
    let tree = book.isozygio_tree(None, None).unwrap();
    for (k, t) in &tree {
        let under: Vec<&(String, rhomeaccount_core::totals::IsoTotals)> = plain
            .iter()
            .filter(|(a, _)| a == k || a.starts_with(&format!("{}.", k)))
            .collect();
        assert!(!under.is_empty());
        assert_eq!(t.tvalue, under.iter().map(|(_, p)| p.tvalue).sum::<i128>());
        assert_eq!(t.tdelta, under.iter().map(|(_, p)| p.tdelta).sum::<i128>());
        assert_eq!(t.tdebit, under.iter().map(|(_, p)| p.tdebit).sum::<i128>());
    }
}

#[test]
fn model_kartella_is_the_card_last_row_first() {
    let book = book();
    let lines = book.kartella("Ταμείο", None, None);
    let model = book.model_kartella("Ταμείο", None, None);
    assert_eq!(model.len(), lines.len());
    for (i, row) in model.iter().enumerate() {
        let l = &lines[lines.len() - 1 - i];
        assert_eq!(row[0], l.id.to_string());
        assert_eq!(row[1], l.date.format("%Y-%m-%d"));
        assert_eq!(row[2], rhomeaccount_core::money::f2gr(l.debit));
        assert_eq!(row[3], rhomeaccount_core::money::f2gr(l.credit));
        assert_eq!(row[4], rhomeaccount_core::money::f2gr(l.tvalue));
        assert_eq!(row[5], l.perigrafi);
        assert_eq!(row[6], l.sxolio);
        assert_eq!(row[7], l.parastatiko);
        assert_eq!(row[8], rhomeaccount_core::money::fixed2(l.delta));
    }
}

#[test]
fn date_of_clock_counts_whole_days_from_1970() {
    assert_eq!(date_of_clock(0, 0), Date::parse_iso("1970-01-01"));
    assert_eq!(date_of_clock(86_399, 999_999_999), Date::parse_iso("1970-01-01"));
    assert_eq!(date_of_clock(86_400, 0), Date::parse_iso("1970-01-02"));
    assert_eq!(date_of_clock(1_700_000_000, 0), Date::parse_iso("2023-11-14"));
    assert_eq!(date_of_clock(u64::MAX, 0), None);
    assert_eq!(date_of_clock(i64::MAX as u64, 0), None);
}

#[test]
fn plain_iso_dates_read_as_written() {
    assert_eq!(Date::parse_iso("2022-13-45"), None);
    assert_eq!(Date::parse_iso("2022-02-29"), None);
    assert_eq!(Date::parse_iso("2022-00-10"), None);
    let d = Date::parse_iso("2024-02-29").unwrap();
    assert_eq!((d.year(), d.month(), d.day()), (2024, 2, 29));
    let z = Date::parse_iso("0001-01-01").unwrap();
    assert_eq!((z.year(), z.month(), z.day()), (1, 1, 1));
}
