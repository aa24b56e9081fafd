use raig::graph::symbols::{StringStorage, SymbolKind, SymbolTable};

#[test]
fn test_string_storage() {
    let strings = ["", "123", "abc", "😭", "🏊🏾‍♂️🏊🏾‍♂️"];
    let mut st = StringStorage::default();
    let symbols: Vec<_> = strings.iter().map(|s| st.add_string(s)).collect();
    for (&sym_id, &value) in symbols.iter().zip(strings.iter()).rev() {
        assert_eq!(st.get_string(sym_id), value);
    }
}

#[test]
fn tags_round_trip() {
    let kinds = [
        SymbolKind::Output,
        SymbolKind::Input,
        SymbolKind::Latch,
        SymbolKind::BadState,
        SymbolKind::Constraint,
        SymbolKind::Justice,
        SymbolKind::Fairness,
    ];
    for kind in kinds {
        assert!(SymbolKind::is_tag(kind.tag()));
        assert_eq!(SymbolKind::from_tag(kind.tag()), Some(kind));
    }
    assert_eq!(SymbolKind::from_tag(b'x'), None);
    assert!(!SymbolKind::is_tag(b'x'));
    assert_eq!(SymbolKind::Input.tag(), b'i');
}

#[test]
fn naming_grows_the_list() {
    let mut st = SymbolTable::default();
    assert!(st.is_empty());
    st.name_input(2, "reset");
    assert!(!st.is_empty());
    assert_eq!(st.input(2), Some("reset".to_string()));
    assert_eq!(st.input(0), None);
    assert_eq!(st.input(5), None);
    st.name_symbol(SymbolKind::Latch, 0, "state");
    assert_eq!(st.latch(0), Some("state".to_string()));
    let symbols = st.symbols();
    assert_eq!(
        symbols,
        vec![
            (SymbolKind::Input, 2, "reset".to_string()),
            (SymbolKind::Latch, 0, "state".to_string())
        ]
    );
}

#[test]
fn justice_names_go_to_the_constraint_list() {
    let mut st = SymbolTable::default();
    st.name_symbol(SymbolKind::Justice, 0, "live");
    assert_eq!(st.constraint(0), Some("live".to_string()));
    assert_eq!(st.justice(0), None);
    st.name_justice(1, "fair_run");
    assert_eq!(st.justice(1), Some("fair_run".to_string()));
}

#[test]
fn renaming_replaces_the_name() {
    let mut st = SymbolTable::default();
    st.name_output(0, "first");
    st.name_output(0, "second");
    assert_eq!(st.output(0), Some("second".to_string()));
    st.name_bad_state(0, "bad");
    st.name_fairness(0, "f");
    assert_eq!(st.bad_state(0), Some("bad".to_string()));
    assert_eq!(st.fairness(0), Some("f".to_string()));
}
