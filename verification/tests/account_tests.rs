use rhomeaccount_core::account::{Account, ChartOfAccounts, OMADES_TYPES_GR};

fn types() -> Vec<(String, String)> {
    vec![
        ("1", "pagia"),
        ("2", "apothemata"),
        ("3", "apaitiseis"),
        ("4", "kefalaio"),
        ("5", "ypoxreoseis"),
        ("54.00", "fpa"),
        ("6", "ejoda"),
        ("7", "esoda"),
        ("8", "anorgana"),
    ]
    .iter()
    .map(|(a, b)| (a.to_string(), b.to_string()))
    .collect()
}

#[test]
fn test_ls1() {
    let ls1 = ChartOfAccounts::new("gr", types());
    assert_eq!(
        ls1.account_type("54.00.00.013"),
        vec!["ypoxreoseis".to_string(), "fpa".to_string()]
    );
}

#[test]
fn test_acc_tree() {
    let mut ls1 = ChartOfAccounts::new("gr", types());
    ls1.add_account("20.00.00").unwrap();
    let acc = Account {
        name: "Aa.Bb.Cc".to_string(),
    };
    assert_eq!(
        acc.tree("."),
        vec!["Aa".to_string(), "Aa.Bb".to_string(), "Aa.Bb.Cc".to_string()]
    );
    let mut rev = acc.tree(".");
    rev.reverse();
    assert_eq!(
        rev,
        vec!["Aa.Bb.Cc".to_string(), "Aa.Bb".to_string(), "Aa".to_string()]
    );
}

#[test]
fn test_acc_reverse() {
    let ls1 = ChartOfAccounts::new("gr", types());
    assert!(ls1.is_reverse("70.01.013"));
    assert!(!ls1.is_reverse("20.01.013"));
    assert!(ls1.is_fpa("54.00.10.001"));
}

#[test]
fn test_invalid_account() {
    let mut ls1 = ChartOfAccounts::new("gr", types());
    assert!(ls1.add_account("90.00.00").is_err());
    assert!(ls1.add_account("80.00.00").is_ok());
}

#[test]
fn default_types_match_the_greek_chart() {
    let from_const: Vec<(String, String)> = OMADES_TYPES_GR
        .iter()
        .map(|(a, b)| (a.to_string(), b.to_string()))
        .collect();
    assert_eq!(from_const, types());
}

#[test]
fn add_account_error_names_the_account() {
    let mut ls1 = ChartOfAccounts::new("gr", types());
    assert_eq!(
        ls1.add_account("90.00.00"),
        Err("Error account name: 90.00.00".to_string())
    );
    assert!(!ls1.is_valid_account("90.00.00"));
}

#[test]
fn add_account_twice_keeps_one() {
    let mut ls1 = ChartOfAccounts::new("gr", types());
    ls1.add_account("20.00.00").unwrap();
    ls1.add_account("20.00.00").unwrap();
    assert_eq!(ls1.accounts.len(), 1);
    assert!(ls1.is_valid_account("20.00.00"));
    assert_eq!(ls1.get_account("20.00.00").unwrap().name, "20.00.00");
    assert!(ls1.get_account("20.00.01").is_none());
}

#[test]
fn full_stops_at_first_bad_account() {
    let list = vec![
        "20.00.00".to_string(),
        "90.01".to_string(),
        "91.02".to_string(),
    ];
    let r = ChartOfAccounts::full("gr", types(), &list);
    assert_eq!(r.err(), Some("Error account name: 90.01".to_string()));
    let ok = ChartOfAccounts::full("gr", types(), &list[..1]).unwrap();
    assert_eq!(ok.name, "gr");
    assert!(ok.is_valid_account("20.00.00"));
}

#[test]
fn account_type_of_unknown_prefix_is_empty() {
    let ls1 = ChartOfAccounts::new("gr", types());
    assert!(ls1.account_type("90.1").is_empty());
    assert!(!ls1.is_fpa("50.00"));
    assert!(ls1.is_reverse("40.00"));
    assert!(ls1.is_reverse("50.00"));
}

#[test]
fn add_accounts_from_list_keeps_the_accounts_before_a_bad_one() {
    let mut chart = ChartOfAccounts::new("gr", types());
    let list = vec![
        "20.00.00".to_string(),
        "38.00".to_string(),
        "90.01".to_string(),
        "60.00".to_string(),
    ];
    let r = chart.add_accounts_from_list(&list);
    assert_eq!(r, Err("Error account name: 90.01".to_string()));
    assert!(chart.is_valid_account("20.00.00"));
    assert!(chart.is_valid_account("38.00"));
    assert!(!chart.is_valid_account("90.01"));
    assert!(!chart.is_valid_account("60.00"));
}
