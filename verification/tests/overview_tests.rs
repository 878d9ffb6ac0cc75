use rhomeaccount_core::account::ChartOfAccounts;
use rhomeaccount_core::date_groups::Grouping;
use rhomeaccount_core::overview::{account_rows, filter_eos, fmt_or_dash, is_cumulative, series_stats, visible_rows, AccountRow};
use rhomeaccount_core::parser_text::{open_book, parse_imerologio};
use rhomeaccount_core::theme::{Kind, Period};
use rhomeaccount_core::totals::IsoTotals;

fn tot(v: i128) -> IsoTotals {
    IsoTotals {
        tvalue: v,
        tdebit: 0,
        tcredit: 0,
        tdelta: 0,
    }
}

#[test]
fn account_rows_mark_parents() {
    let chart = ChartOfAccounts::new(
        "gr",
        vec![
            ("Ταμείο".to_string(), "pagia".to_string()),
            ("Εξοδα".to_string(), "ejoda".to_string()),
        ],
    );
    let tree = vec![
        ("Εξοδα".to_string(), tot(50)),
        ("Εξοδα.Ρεύμα".to_string(), tot(50)),
        ("Ταμείο".to_string(), tot(-50)),
        ("Ταμείο.Μετρητά".to_string(), tot(-50)),
        ("ΤαμείοΧ".to_string(), tot(0)),
    ];
    let rows = account_rows(&tree, &chart);
    assert_eq!(rows.len(), 5);
    assert!(rows[0].has_children);
    assert_eq!(rows[0].depth, 0);
    assert_eq!(rows[1].leaf, "Ρεύμα");
    assert_eq!(rows[1].depth, 1);
    assert!(!rows[1].has_children);
    assert_eq!(rows[1].kind, Kind::Ejoda);
    assert!(rows[2].has_children);
    assert_eq!(rows[3].value, -50);
    assert_eq!(rows[3].kind, Kind::Pagia);
    assert!(!rows[4].has_children);
    assert_eq!(rows[4].kind, Kind::Pagia);
}

#[test]
fn dashes_for_nothing() {
    assert_eq!(fmt_or_dash(0), "—");
    assert_eq!(fmt_or_dash(-123456), "-1.234,56");
    assert!(is_cumulative(Kind::Kefalaio));
    assert!(!is_cumulative(Kind::Esoda));
    assert_eq!(Period::Trimino.grouping(), Grouping::Trimino);
    assert_eq!(Period::Etos.grouping(), Grouping::Year);
}

#[test]
fn filter_date_only_when_valid() {
    assert_eq!(filter_eos(true, "2022-02-28"), Some("2022-02-28".to_string()));
    assert_eq!(filter_eos(true, "2022-02-30"), None);
    assert_eq!(filter_eos(false, "2022-02-28"), None);
}

#[test]
fn balance_checks_compare_with_the_book() {
    let (mut book, declared) = open_book("> Ταμείο pagia\n> Εσοδα esoda\n+ Ταμείο.Μετρητά\n+ Εσοδα.Τόκοι\n").unwrap();
    let mut errors = Vec::new();
    parse_imerologio(
        &mut book,
        &declared,
        &mut errors,
        "j",
        "j-close\n2022-03-01 Τόκοι\n  Ταμείο.Μετρητά   5,10\n  Εσοδα.Τόκοι\n@ 2022-03-31 Ταμείο.Μετρητά 5,10\n@ 2022-02-28 Ταμείο 1\n",
    );
    assert!(errors.is_empty(), "errors: {:?}", errors);
    let rows = book.validation_rows();
    assert_eq!(
        rows,
        vec![
            ("2022-03-31".to_string(), "Ταμείο.Μετρητά".to_string(), 510, 510, 0, true),
            ("2022-02-28".to_string(), "Ταμείο".to_string(), 0, 100, -100, false),
        ]
    );
}

fn row(name: &str, has_children: bool) -> AccountRow {
    AccountRow {
        name: name.to_string(),
        leaf: name.rsplit('.').next().unwrap().to_string(),
        depth: name.matches('.').count(),
        has_children,
        value: 0,
        kind: Kind::Other,
    }
}

fn tree_rows() -> Vec<AccountRow> {
    vec![
        row("Εξοδα", true),
        row("Εξοδα.Ρεύμα", true),
        row("Εξοδα.Ρεύμα.ΔΕΗ", false),
        row("Εξοδα.Νερό", false),
        row("Ταμείο", true),
        row("Ταμείο.Μετρητά", false),
    ]
}

#[test]
fn visible_rows_hide_what_lies_under_a_collapsed_row() {
    let rows = tree_rows();
    assert_eq!(visible_rows(&rows, "", &vec![]), vec![0, 1, 2, 3, 4, 5]);
    assert_eq!(visible_rows(&rows, "", &vec!["Εξοδα.Ρεύμα".to_string()]), vec![0, 1, 3, 4, 5]);
    assert_eq!(
        visible_rows(&rows, "  ", &vec!["Εξοδα".to_string(), "Εξοδα.Ρεύμα".to_string()]),
        vec![0, 4, 5]
    );
    // a leaf in the collapsed list hides nothing
    assert_eq!(visible_rows(&rows, "", &vec!["Εξοδα.Νερό".to_string()]), vec![0, 1, 2, 3, 4, 5]);
}

#[test]
fn visible_rows_search_folds_accents_and_trims() {
    let rows = tree_rows();
    // the search ignores collapsing, case and accents, and is trimmed first
    assert_eq!(visible_rows(&rows, " ρευμα ", &vec!["Εξοδα".to_string()]), vec![1, 2]);
    assert_eq!(visible_rows(&rows, "μετρ", &vec![]), vec![5]);
    assert!(visible_rows(&rows, "Ψ", &vec![]).is_empty());
}

#[test]
fn series_stats_figures() {
    let s = series_stats(&vec![0, 300, -700, 0, 700, 50]);
    assert_eq!(s.latest, 50);
    assert_eq!(s.peak, -700);
    assert_eq!(s.total, Some(350));
    // 350 over the four non-zero values: 87.5 cents, rounded away from zero
    assert_eq!(s.mean, 88);
    let e = series_stats(&vec![]);
    assert_eq!((e.latest, e.peak, e.mean, e.total), (0, 0, 0, Some(0)));
    let n = series_stats(&vec![-5, 0, -10]);
    assert_eq!(n.mean, -8);
}

#[test]
fn series_stats_take_any_values() {
    let big = vec![i128::MAX, i128::MAX, 1];
    let s = series_stats(&big);
    assert_eq!(s.total, None);
    assert_eq!(s.peak, i128::MAX);
    // (2 * MAX + 1) / 3, rounded
    assert_eq!(s.mean, (i128::MAX / 3) * 2 + 1);
    let low = vec![i128::MIN, i128::MIN];
    let l = series_stats(&low);
    assert_eq!(l.total, None);
    assert_eq!(l.mean, i128::MIN);
    assert_eq!(l.peak, i128::MIN);
    let mixed = vec![i128::MAX, i128::MIN, 0];
    let m = series_stats(&mixed);
    assert_eq!(m.total, Some(-1));
    assert_eq!(m.mean, -1);
    assert_eq!(m.peak, i128::MIN);
}
