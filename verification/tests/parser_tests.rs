use rhomeaccount_core::book::Book;
use rhomeaccount_core::parser_text::{
    extract_braces, is_line_to_ignore, is_path_valid_book_data, open_book, parse_detail_line,
    parse_header_line, parse_imerologio, parse_metadata, sorted_book_files, starts_with_iso_date,
    starts_with_two_spaces, text_lines_exec, DetailValue,
};

/// A metadata file of the shape the journals below need.
const METADATA: &str = "@ test   book\n\
> Πάγια pagia\n\
> Ταμείο pagia\n\
> Χρεώστες apaitiseis\n\
> Πιστωτές ypoxreoseis\n\
> 54.00 fpa\n\
> Εξοδα ejoda\n\
> Εσοδα esoda\n\
+ Ταμείο.Μετρητά\n\
+ Εσοδα.Κοινόχρηστα\n\
+ Εξοδα.Ενοίκιο\n\
+ Χρεώστες.1-Νικ\n\
+ Πιστωτές.ΔΕΗ\n";

fn parse_extra(contents: &str) -> (Book, Vec<String>) {
    let (mut book, declared) = open_book(METADATA).unwrap();
    let mut errors = Vec::new();
    parse_imerologio(&mut book, &declared, &mut errors, "book/202204", contents);
    (book, errors)
}

#[test]
fn test_parse_metadata() {
    let (accounts, omades, name) = parse_metadata(METADATA);
    assert_eq!(name, "test book");
    assert!(accounts.contains(&"Ταμείο.Μετρητά".to_string()));
    assert!(omades.contains(&("Πάγια".to_string(), "pagia".to_string())));
    assert!(omades.contains(&("54.00".to_string(), "fpa".to_string())));
}

#[test]
fn test_unparseable_value_is_reported_not_absorbed() {
    let (book, errors) = parse_extra(
        "j-normal\n\n2022-04-01 Δοκιμή\n  Ταμείο.Μετρητά     12,,50\n  Εσοδα.Κοινόχρηστα\n",
    );
    assert!(errors.iter().any(|e| e.contains("12,,50")), "errors: {:?}", errors);
    // The typo must not be silently absorbed into the balancing line.
    assert!(book.is_balanced().is_err(), "errors: {:?}", errors);
}

#[test]
fn test_explicit_zero_is_a_value_not_a_balancing_line() {
    let (book, _) = parse_extra(
        "j-normal\n\n2022-04-01 Δοκιμή\n  Ταμείο.Μετρητά     0\n  Εσοδα.Κοινόχρηστα     10\n  Χρεώστες.1-Νικ\n",
    );
    let trn = book.transactions.last().unwrap();
    assert_eq!(trn.lines.len(), 3);
    assert_eq!(trn.lines[0].value, 0);
    // the balancing line is the last one, not the explicit zero
    assert_eq!(trn.lines[2].value, -1000);
}

#[test]
fn test_malformed_validation_line_is_reported() {
    let (book, errors) = parse_extra("j-normal\n\n@ 2022-04-01 Ταμείο.Μετρητά χχχ\n");
    assert!(errors.iter().any(|e| e.contains("χχχ")), "errors: {:?}", errors);
    assert!(book.validations.is_empty());
}

#[test]
fn test_unregistered_account_reported_every_time() {
    let (_, errors) = parse_extra(
        "j-normal\n\n2022-04-01 Δοκιμή\n  Εξοδα.Άγνωστο     10\n  Ταμείο.Μετρητά\n\n2022-04-02 Δοκιμή\n  Εξοδα.Άγνωστο     20\n  Ταμείο.Μετρητά\n",
    );
    let n = errors
        .iter()
        .filter(|e| e.contains("Εξοδα.Άγνωστο") && e.contains("δεν είναι καταχωρημένος"))
        .count();
    assert_eq!(n, 2, "errors: {:?}", errors);
}

#[test]
fn test_bad_header_date_is_reported() {
    let (book, errors) = parse_extra(
        "j-normal\n\n2022-13-45 Δοκιμή\n  Ταμείο.Μετρητά     10\n  Εσοδα.Κοινόχρηστα\n",
    );
    assert!(errors.iter().any(|e| e.contains("2022-13-45")), "errors: {:?}", errors);
    // no transaction was created, so nothing silently landed on 1970-01-01
    assert!(book.transactions.is_empty(), "errors: {:?}", errors);
}

#[test]
fn journal_errors_name_file_and_line() {
    let (_, errors) = parse_extra(
        "j-normal\n\n2022-13-45 Δοκιμή\n  Ταμείο.Μετρητά     10\n@ 2022-01-01 Ταμείο.Μετρητά\n",
    );
    assert_eq!(
        errors,
        vec![
            "book/202204:3: '2022-13-45' is not a valid ISO date".to_string(),
            "book/202204:4: η γραμμή 'Ταμείο.Μετρητά' δεν ανήκει σε κάποιο άρθρο".to_string(),
            "book/202204:5: γραμμή ελέγχου '@' θέλει 4 πεδία (@ ημερομηνία λογαριασμός ποσό), βρέθηκαν 3".to_string(),
        ]
    );
}

#[test]
fn journal_with_a_wrong_first_line_is_refused() {
    let (book, errors) = parse_extra("journal\n2022-04-01 Δοκιμή\n  Ταμείο.Μετρητά     10\n");
    assert_eq!(
        errors,
        vec!["File book/202204 is not compatible. First line: 'journal'".to_string()]
    );
    assert!(book.transactions.is_empty());
}

#[test]
fn a_full_journal_balances() {
    let (book, errors) = parse_extra(
        "j-open\r\n\
         # opening balances\r\n\
         2022-01-01 Έναρξη {Α1}\r\n\
         \x20 Ταμείο.Μετρητά     1.000,00 # ταμείο\r\n\
         \x20 Πιστωτές.ΔΕΗ\r\n\
         2022-01-05 ΔΕΗ Ιανουαρίου {Τ-55}\r\n\
         \x20 Πιστωτές.ΔΕΗ     120,50\r\n\
         \x20 Ταμείο.Μετρητά\r\n\
         @ 2022-01-31 Ταμείο.Μετρητά 879,50\r\n",
    );
    assert!(errors.is_empty(), "errors: {:?}", errors);
    assert!(book.is_balanced().is_ok());
    assert_eq!(book.transactions.len(), 2);
    let t = book.get_transaction(2).unwrap();
    assert_eq!(t.parastatiko, "Τ-55");
    assert_eq!(t.perigrafi, "ΔΕΗ Ιανουαρίου");
    assert_eq!(t.lines[1].value, -12050);
    assert_eq!(book.transactions[0].lines[0].sxolio, "ταμείο");
    assert_eq!(
        book.validations,
        vec![("2022-01-31".to_string(), "Ταμείο.Μετρητά".to_string(), 87950)]
    );
    assert_eq!(book.ypoloipo("Ταμείο", Some("2022-01-31")), 87950);
}

#[test]
fn header_line_parts() {
    assert_eq!(
        parse_header_line("2022-01-05 ΔΕΗ {Τ-55} Ιανουαρίου"),
        (
            "2022-01-05".to_string(),
            "ΔΕΗ  Ιανουαρίου".to_string(),
            "Τ-55".to_string()
        )
    );
    assert_eq!(
        parse_header_line("2022-01-05"),
        ("2022-01-05".to_string(), "".to_string(), "".to_string())
    );
    assert_eq!(extract_braces("a }b{ c"), None);
    assert_eq!(extract_braces("a {b} c"), Some("b".to_string()));
}

#[test]
fn detail_line_parts() {
    assert_eq!(
        parse_detail_line("Ταμείο.Μετρητά  12,50 # σχόλιο # άλλο"),
        (
            "σχόλιο".to_string(),
            "Ταμείο.Μετρητά".to_string(),
            DetailValue::Value(1250)
        )
    );
    assert_eq!(
        parse_detail_line("Ταμείο.Μετρητά"),
        ("".to_string(), "Ταμείο.Μετρητά".to_string(), DetailValue::Balancing)
    );
    assert_eq!(
        parse_detail_line("Ταμείο.Μετρητά x1"),
        (
            "".to_string(),
            "Ταμείο.Μετρητά".to_string(),
            DetailValue::Unparseable("x1".to_string())
        )
    );
}

#[test]
fn line_shapes() {
    assert!(starts_with_iso_date("2022-13-45 x"));
    assert!(!starts_with_iso_date("2022/01/01"));
    assert!(!starts_with_iso_date("2022-01-0"));
    assert!(starts_with_two_spaces("  x"));
    assert!(!starts_with_two_spaces("  "));
    assert!(!starts_with_two_spaces(" x "));
    assert!(is_line_to_ignore("  abc  "));
    assert!(!is_line_to_ignore("αβ"));
    assert!(is_line_to_ignore("# comment line"));
    assert!(!is_line_to_ignore("abcd"));
}

#[test]
fn text_lines_as_str_lines() {
    let ls: Vec<String> = text_lines_exec("a\r\nb\n\nc\r")
        .iter()
        .map(|v| v.iter().collect())
        .collect();
    assert_eq!(ls, vec!["a", "b", "", "c\r"]);
    assert!(text_lines_exec("").is_empty());
    assert_eq!(text_lines_exec("x\n").len(), 1);
}

#[test]
fn book_files_sorted_without_metadata() {
    let names = vec![
        "202203".to_string(),
        "000".to_string(),
        "202201".to_string(),
        "2021".to_string(),
    ];
    assert!(is_path_valid_book_data(&names));
    assert!(!is_path_valid_book_data(&names[..1]));
    assert_eq!(sorted_book_files(names), vec!["2021", "202201", "202203"]);
}

#[test]
fn metadata_repeated_prefix_replaces_in_place() {
    let (_, omades, name) = parse_metadata("> 1 pagia\n> 2 ejoda\n> 1 esoda\n>3\n");
    assert_eq!(name, "");
    assert_eq!(
        omades,
        vec![
            ("1".to_string(), "esoda".to_string()),
            ("2".to_string(), "ejoda".to_string())
        ]
    );
}

#[test]
fn open_book_refuses_an_account_outside_the_categories() {
    let r = open_book("> 1 pagia\n+ 1.ok\n+ 9.bad\n");
    assert_eq!(r.err(), Some("Error account name: 9.bad".to_string()));
}

#[test]
fn test_parse() {
    let (mybook, errors) = parse_extra(
        "j-normal\n2022-04-01 Δοκιμή\n  Ταμείο.Μετρητά     10\n  Εσοδα.Κοινόχρηστα\n",
    );
    assert!(errors.is_empty(), "errors: {:?}", errors);
    assert!(mybook.is_balanced().is_ok());
    assert!(mybook.get_transaction(1).is_some());
}

#[test]
fn account_outside_the_categories_is_reported_twice() {
    let (book, errors) = parse_extra(
        "j-normal\n2022-04-01 Δοκιμή\n  Ζ.κάτι     10\n  Ταμείο.Μετρητά\n",
    );
    assert_eq!(
        errors,
        vec![
            "book/202204:3, ο λογαριασμός 'Ζ.κάτι' δεν είναι καταχωρημένος".to_string(),
            "book/202204:3: Error account name: Ζ.κάτι".to_string(),
        ]
    );
    // the line is still taken, and the transaction balances
    assert!(book.is_balanced().is_ok());
    assert!(!book.chart.is_valid_account("Ζ.κάτι"));
}

#[test]
fn balancing_an_empty_transaction_is_reported() {
    let (_, errors) = parse_extra("j-normal\n2022-04-01 Δοκιμή\n  Ταμείο.Μετρητά\n");
    assert_eq!(
        errors,
        vec!["book/202204:3: Transaction is already balanced".to_string()]
    );
}
