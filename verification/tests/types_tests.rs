use spell::types::SpellType;
use spell::json::Json;

#[test]
fn parse_leaf_names() {
    assert_eq!(SpellType::parse("Number").unwrap(), SpellType::Number);
    assert_eq!(SpellType::parse("String").unwrap(), SpellType::Str);
    assert_eq!(SpellType::parse("Boolean").unwrap(), SpellType::Boolean);
    assert_eq!(SpellType::parse("Any").unwrap(), SpellType::Any);
    assert_eq!(SpellType::parse("Unit").unwrap(), SpellType::Unit);
}

#[test]
fn parse_array_nested() {
    assert_eq!(
        SpellType::parse("Array<Number>").unwrap(),
        SpellType::Array(Box::new(SpellType::Number))
    );
    assert_eq!(
        SpellType::parse("Array<Array<String>>").unwrap(),
        SpellType::Array(Box::new(SpellType::Array(Box::new(SpellType::Str))))
    );
}

#[test]
fn parse_trims_blanks() {
    assert_eq!(SpellType::parse("  Number\t").unwrap(), SpellType::Number);
    assert_eq!(
        SpellType::parse(" Array< Number > ").unwrap(),
        SpellType::Array(Box::new(SpellType::Number))
    );
}

#[test]
fn parse_unknown_is_reported() {
    let e = SpellType::parse("Bogus").unwrap_err();
    assert_eq!(e, "Unknown type: 'Bogus'");
    let e2 = SpellType::parse("Array<Bogus>").unwrap_err();
    assert_eq!(e2, "Unknown type: 'Bogus'");
    assert!(SpellType::parse("").is_err());
    assert!(SpellType::parse("Array<").is_err());
}

#[test]
fn round_trip_parse_display() {
    let cases = vec![
        SpellType::Number,
        SpellType::Str,
        SpellType::Boolean,
        SpellType::Any,
        SpellType::Unit,
        SpellType::Array(Box::new(SpellType::Number)),
        SpellType::Array(Box::new(SpellType::Array(Box::new(SpellType::Unit)))),
    ];
    for t in cases {
        let text = t.display();
        assert_eq!(SpellType::parse(text.as_str()).unwrap(), t);
    }
}

#[test]
fn display_surface_text() {
    assert_eq!(
        SpellType::Array(Box::new(SpellType::Boolean)).display(),
        "Array<Boolean>"
    );
    assert_eq!(SpellType::Unit.display(), "Unit");
}

#[test]
fn matches_scalars() {
    assert!(SpellType::Number.matches(&Json::Num(3)));
    assert!(!SpellType::Number.matches(&Json::Str("3".to_string())));
    assert!(SpellType::Str.matches(&Json::Str("x".to_string())));
    assert!(SpellType::Boolean.matches(&Json::Bool(false)));
    assert!(SpellType::Unit.matches(&Json::Null));
    assert!(!SpellType::Unit.matches(&Json::Num(0)));
}

#[test]
fn any_matches_everything() {
    assert!(SpellType::Any.matches(&Json::Null));
    assert!(SpellType::Any.matches(&Json::Num(1)));
    assert!(SpellType::Any.matches(&Json::Arr(vec![Json::Bool(true)])));
    assert!(SpellType::Any.matches(&Json::Obj(vec![("k".to_string(), Json::Null)])));
}

#[test]
fn array_matches_every_element() {
    let t = SpellType::Array(Box::new(SpellType::Number));
    assert!(t.matches(&Json::Arr(vec![Json::Num(1), Json::Num(2)])));
    assert!(!t.matches(&Json::Arr(vec![Json::Num(1), Json::Str("x".to_string())])));
    assert!(!t.matches(&Json::Num(1)));
}

#[test]
fn empty_array_matches_any_element_type() {
    let t = SpellType::Array(Box::new(SpellType::Boolean));
    assert!(t.matches(&Json::Arr(vec![])));
    let u = SpellType::Array(Box::new(SpellType::Array(Box::new(SpellType::Str))));
    assert!(u.matches(&Json::Arr(vec![])));
}

#[test]
fn actual_type_is_not_promoted_by_any() {
    // `Any` in the declared type accepts any value, but a value keeps
    // its own shape: a number still fails a `String` check.
    assert!(SpellType::Any.matches(&Json::Num(1)));
    assert!(!SpellType::Str.matches(&Json::Num(1)));
}
