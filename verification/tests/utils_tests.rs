use rhomeaccount_core::date::Date;
use rhomeaccount_core::date_groups::{
    date2date, date2ejamino, date2tetramino, date2trimino, date2year, date2year_month, Grouping,
};
use rhomeaccount_core::money::{f2gr, fixed2, gr2float, gr_num};
use rhomeaccount_core::utils::{
    account_tree, fix_account, gr2strdec, grup, is_afm, isodate2ym, months_between,
    months_between_ym,
};

fn d(s: &str) -> Date {
    Date::parse_iso(s).unwrap()
}

#[test]
fn test_gr_num() {
    assert_eq!(gr_num(101034), "1.010,34");
    assert_eq!(gr_num(0), "0   ");
    assert_eq!(gr_num(12312350), "123.123,5 ");
    assert_eq!(gr_num(-12312350), "-123.123,5 ");
    assert_eq!(gr_num(1), "0,01");
    assert_eq!(gr_num(-1), "-0,01");
    assert_eq!(gr_num(10), "0,1 ");
    assert_eq!(gr_num(-8200), "-82   ");
}

#[test]
fn test_account_tree() {
    assert_eq!(
        account_tree("a.b.c", false, "."),
        vec!["a".to_string(), "a.b".to_string(), "a.b.c".to_string()]
    );
    assert_eq!(account_tree("a", false, "."), vec!["a".to_string()]);
    assert_eq!(account_tree("", false, "."), vec!["".to_string()]);
    assert_eq!(
        account_tree("a.b", true, "."),
        vec!["a.b".to_string(), "a".to_string()]
    );
}

#[test]
fn test_grup() {
    assert_eq!(grup("ΐέάό"), "ΙΕΑΟ");
    assert_eq!(grup("Ίώνάς"), "ΙΩΝΑΣ");
    assert_eq!(grup("ϊίΫώrock123"), "ΙΙΥΩROCK123");
}

#[test]
fn test_is_afm() {
    assert!(is_afm("094025817"));
    assert!(!is_afm("094025818"));
    assert!(!is_afm("0"));
    assert!(!is_afm("0940258179"));
}

#[test]
fn test_f2gr() {
    assert_eq!(f2gr(101034), "1.010,34");
    assert_eq!(f2gr(0), "");
    assert_eq!(f2gr(-8200), "-82,00");
    assert_eq!(f2gr(123456789), "1.234.567,89");
}

#[test]
fn test_months_between_ym() {
    assert_eq!(
        months_between_ym("202112", "202203"),
        vec!["202112", "202201", "202202", "202203"]
    );
}

#[test]
fn test_isodate2ym() {
    assert_eq!(isodate2ym("2023-05-17"), "202305");
}

#[test]
fn test_groups() {
    assert_eq!(date2date(d("2021-12-16")), "20211216");
    assert_eq!(date2year_month(d("2021-12-16")), "2112");
    assert_eq!(date2year(d("2021-12-16")), "2021");
    assert_eq!(date2trimino(d("2021-12-16")), "214");
    assert_eq!(date2trimino(d("2021-01-05")), "211");
    assert_eq!(date2tetramino(d("2021-05-05")), "212");
    assert_eq!(date2ejamino(d("2021-07-05")), "212");
    assert_eq!(date2ejamino(d("2021-06-30")), "211");
}

#[test]
fn grouping_dispatches_to_the_date_functions() {
    let x = d("2021-12-16");
    assert_eq!(Grouping::YearMonth.group(x), "2112");
    assert_eq!(Grouping::Year.group(x), "2021");
    assert_eq!(Grouping::Trimino.group(x), "214");
    assert_eq!(Grouping::Tetramino.group(x), "213");
    assert_eq!(Grouping::Ejamino.group(x), "212");
}

#[test]
fn gr2float_reads_greek_numbers_as_cents() {
    assert_eq!(gr2float("1.234,56"), Some(123456));
    assert_eq!(gr2float("-82"), Some(-8200));
    assert_eq!(gr2float("0"), Some(0));
    assert_eq!(gr2float("12,345"), Some(1235));
    assert_eq!(gr2float("12,,50"), None);
    assert_eq!(gr2float("χχχ"), None);
    assert_eq!(gr2float(""), None);
}

#[test]
fn gr2float_reads_exponents() {
    assert_eq!(gr2float("1e3"), Some(100000));
    assert_eq!(gr2float("1,5e3"), Some(150000));
    assert_eq!(gr2float("2,5E-1"), Some(25));
    assert_eq!(gr2float("1e-2"), Some(1));
    assert_eq!(gr2float("1e-3"), Some(0));
    assert_eq!(gr2float("-1,005e1"), Some(-1005));
    assert_eq!(gr2float(",5e+1"), Some(500));
    assert_eq!(gr2float("0e99999999999999999999999"), Some(0));
    assert_eq!(gr2float("7e-99999999999999999999999"), Some(0));
    assert_eq!(gr2float("1e99999999999999999999999"), None);
    assert_eq!(gr2float("1e400"), None);
    assert_eq!(gr2float("1e"), None);
    assert_eq!(gr2float("1e+"), None);
    assert_eq!(gr2float("1e2e3"), None);
    assert_eq!(gr2float("e3"), None);
}

#[test]
fn gr2float_has_no_cents_for_infinity_or_nan() {
    assert_eq!(gr2float("inf"), None);
    assert_eq!(gr2float("-infinity"), None);
    assert_eq!(gr2float("NaN"), None);
}

#[test]
fn f2gr_round_trips_through_gr2float() {
    for c in [1i64, -1, 99, 100, 101034, -8200, 123456789, -987654321012] {
        assert_eq!(gr2float(&f2gr(c as i128)), Some(c));
    }
}

#[test]
fn gr2strdec_moves_the_decimal_comma() {
    assert_eq!(gr2strdec("1.234,56"), "1234.56");
    assert_eq!(gr2strdec("-0,5"), "-0.5");
}

#[test]
fn fix_account_capitalizes_each_level() {
    assert_eq!(fix_account("ταμείο.μετρητά", "."), "Ταμείο.Μετρητά");
    assert_eq!(fix_account("aa.bb", "/"), "Aa/Bb");
}

#[test]
fn months_between_spans_years() {
    assert_eq!(
        months_between(2020, 11, 2021, 2),
        vec!["202011", "202012", "202101", "202102"]
    );
    assert!(months_between(2022, 1, 2021, 1).is_empty());
}

#[test]
fn fixed2_writes_two_decimals() {
    assert_eq!(fixed2(-5000), "-50.00");
    assert_eq!(fixed2(1234), "12.34");
    assert_eq!(fixed2(5), "0.05");
}

#[test]
fn date_parse_and_format() {
    let x = d("2020-02-29");
    assert_eq!(x.format("%Y%m%d"), "20200229");
    assert_eq!(x.format("%Y-%m-%d"), "2020-02-29");
    assert_eq!(x.format("%Y%m"), "202002");
    assert!(Date::parse_iso("2021-02-29").is_none());
    assert!(Date::parse_iso("2022-13-45").is_none());
    let old = Date::from_ymd(800, 3, 1).unwrap();
    assert_eq!(old.format("%Y-%m-%d"), "0800-03-01");
}

#[test]
fn days_list_runs_day_by_day() {
    let days = rhomeaccount_core::date::days_list(d("2020-02-27"), d("2020-03-01"));
    let texts: Vec<String> = days.iter().map(|x| x.format("%Y-%m-%d")).collect();
    assert_eq!(texts, vec!["2020-02-27", "2020-02-28", "2020-02-29", "2020-03-01"]);
    assert!(rhomeaccount_core::date::days_list(d("2020-03-01"), d("2020-02-27")).is_empty());
    assert_eq!(rhomeaccount_core::date::date2int(d("2023-05-17")), 20230517);
}

#[test]
fn gr_num_blanks_the_trailing_zero_decimals_of_f2gr() {
    for c in [101034i128, 12312350, -12312350, 1, -1, 10, -8200, 100, 123456789] {
        let f = f2gr(c);
        let expected = if f.ends_with(",00") {
            f[..f.len() - 3].to_string() + "   "
        } else if f.ends_with('0') {
            f[..f.len() - 1].to_string() + " "
        } else {
            f.clone()
        };
        assert_eq!(gr_num(c), expected);
    }
}

#[test]
fn grup_ignores_accents_of_the_same_letter() {
    assert_eq!(grup("ΕΝΟΊΚΙΟ"), grup("ΕΝΟΙΚΙΟ"));
    assert_eq!(grup("ά"), grup("Α"));
    assert_eq!(grup("Ϋδρα"), grup("Ύδρα"));
}
