use dataflow::node::{Head, LoadData, Multiply, NodeSettings, Sum, Tail};

#[test]
fn load_data_defaults_to_comma_and_no_path() {
    match NodeSettings::load_data() {
        NodeSettings::LoadData(d) => {
            assert_eq!(d.separator, Some(",".to_string()));
            assert_eq!(d.path, None);
        }
        other => panic!("unexpected settings {:?}", other),
    }
}

#[test]
fn fresh_settings_have_no_parameters() {
    assert!(matches!(NodeSettings::multiply(), NodeSettings::Multiply(Multiply { times: None })));
    assert!(matches!(NodeSettings::sum(), NodeSettings::Sum(Sum {})));
    assert!(matches!(NodeSettings::tail(), NodeSettings::Tail(Tail { row_count: None })));
    assert!(matches!(NodeSettings::head(), NodeSettings::Head(Head { row_count: None })));
}

#[test]
fn matches_kind_compares_variants_only() {
    let a = NodeSettings::Multiply(Multiply { times: Some(3) });
    let b = NodeSettings::multiply();
    assert!(a.matches_kind(&b));
    assert!(b.matches_kind(&a));
    let load = NodeSettings::LoadData(LoadData {
        separator: Some(";".to_string()),
        path: Some("x.csv".to_string()),
    });
    assert!(load.matches_kind(&NodeSettings::load_data()));
    assert!(NodeSettings::tail().matches_kind(&NodeSettings::Tail(Tail { row_count: Some(4) })));
    assert!(NodeSettings::head().matches_kind(&NodeSettings::head()));
    assert!(NodeSettings::sum().matches_kind(&NodeSettings::sum()));
}

#[test]
fn matches_kind_rejects_other_variants() {
    let all = vec![
        NodeSettings::load_data(),
        NodeSettings::multiply(),
        NodeSettings::sum(),
        NodeSettings::tail(),
        NodeSettings::head(),
    ];
    for (i, a) in all.iter().enumerate() {
        for (j, b) in all.iter().enumerate() {
            assert_eq!(a.matches_kind(b), i == j);
        }
    }
}

#[test]
fn duplicate_keeps_every_field() {
    let s = NodeSettings::LoadData(LoadData {
        separator: Some("\t".to_string()),
        path: Some("data.csv".to_string()),
    });
    assert_eq!(format!("{:?}", s.duplicate()), format!("{:?}", s));
    let t = NodeSettings::Head(Head { row_count: Some(7) });
    assert_eq!(format!("{:?}", t.duplicate()), format!("{:?}", t));
}
