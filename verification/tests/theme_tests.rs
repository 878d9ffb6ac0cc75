use rhomeaccount_core::theme::{kind_label, period_label, Kind, Period, Settings, ThemeId};

#[test]
fn theme_keys_round_trip() {
    for t in [
        ThemeId::Clean,
        ThemeId::Paper,
        ThemeId::Night,
        ThemeId::Ocean,
        ThemeId::Dracula,
    ] {
        assert_eq!(ThemeId::from_key(t.key()), Some(t));
    }
    assert_eq!(ThemeId::from_key("sepia"), None);
    assert_eq!(ThemeId::Ocean.label(), "Ωκεανός");
    assert!(ThemeId::Dracula.is_dark());
    assert!(!ThemeId::Paper.is_dark());
}

#[test]
fn kind_from_types_takes_the_last_family() {
    let types = vec!["ypoxreoseis".to_string(), "fpa".to_string()];
    assert_eq!(Kind::from_types(&types), Kind::Fpa);
    let types = vec!["fpa".to_string(), "other".to_string()];
    assert_eq!(Kind::from_types(&types), Kind::Fpa);
    assert_eq!(Kind::from_types(&[]), Kind::Other);
    assert_eq!(Kind::Fpa.slot(), Some(5));
    assert_eq!(Kind::Other.slot(), None);
    assert_eq!(kind_label(Kind::Esoda), "Έσοδα");
    assert_eq!(kind_label(Kind::Other), "Λοιπά");
}

#[test]
fn period_labels() {
    assert_eq!(period_label(Period::Minas, "2404"), "04/24");
    assert_eq!(period_label(Period::Trimino, "244"), "Τ4/24");
    assert_eq!(period_label(Period::Ejamino, "241"), "Ε1/24");
    assert_eq!(period_label(Period::Etos, "2024"), "2024");
    assert_eq!(period_label(Period::Minas, "24045"), "24045");
}

#[test]
fn settings_select_a_theme() {
    let mut s = Settings {
        filename: "book".to_string(),
        theme: None,
        dark_mode: true,
    };
    assert_eq!(s.theme_id(), ThemeId::Night);
    s.dark_mode = false;
    assert_eq!(s.theme_id(), ThemeId::Clean);
    s.set_theme(ThemeId::Ocean);
    assert_eq!(s.theme.as_deref(), Some("ocean"));
    assert!(s.dark_mode);
    assert_eq!(s.theme_id(), ThemeId::Ocean);
    s.theme = Some("unknown".to_string());
    assert_eq!(s.theme_id(), ThemeId::Night);
}
