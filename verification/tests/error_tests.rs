use spell::dict::Dict;
use spell::error::Error;
use spell::json::Json;
use spell::schema::{decode_typed_value, Node, TypedValue};
use spell::types::SpellType;

#[test]
fn messages_locate_the_fault() {
    assert_eq!(
        Error::NodeNotFound("z".to_string()).message(),
        "Node not found: 'z'"
    );
    assert_eq!(
        Error::CycleDetected("x".to_string()).message(),
        "Cycle detected at node: 'x'"
    );
    assert_eq!(
        Error::MissingInput {
            node: "n".to_string(),
            port: "p".to_string()
        }
        .message(),
        "Node 'n' missing required input: 'p'"
    );
    assert_eq!(
        Error::TypeMismatch {
            node: "n".to_string(),
            port: "p".to_string(),
            expected: SpellType::Str,
            actual: SpellType::Number
        }
        .message(),
        "Type mismatch in node 'n' port 'p': expected String, got Number"
    );
    assert_eq!(
        Error::InvalidValue {
            node: "n".to_string(),
            port: "p".to_string(),
            expected_type: SpellType::Array(Box::new(SpellType::Number)),
            actual_value: "true".to_string()
        }
        .message(),
        "Invalid value in node 'n' port 'p': expected type Array<Number>, got value 'true'"
    );
    assert_eq!(
        Error::OperationError {
            node: "n".to_string(),
            reason: "Division by zero".to_string()
        }
        .message(),
        "Operation failed in node 'n': Division by zero"
    );
    assert_eq!(
        Error::UnknownOperation("Conjure".to_string()).message(),
        "Unknown operation: 'Conjure'"
    );
    assert_eq!(
        Error::MissingTypeAnnotation {
            node: "n".to_string(),
            port: "p".to_string()
        }
        .message(),
        "Missing type annotation in node 'n' port 'p' - SPELL requires explicit types"
    );
    assert_eq!(
        Error::InvalidType {
            node: "n".to_string(),
            expected: "number".to_string(),
            actual: "true".to_string()
        }
        .message(),
        "Node 'n' expected type 'number', got 'true'"
    );
}

#[test]
fn typed_values_decode_from_raw_json() {
    let raw = Json::Obj(vec![
        ("ref".to_string(), Json::Str("other".to_string())),
        ("type".to_string(), Json::Str("Number".to_string())),
    ]);
    let tv = decode_typed_value(&raw).unwrap();
    assert!(tv.is_reference());
    assert_eq!(tv.get_reference().unwrap(), "other");
    assert_eq!(*tv.get_type().unwrap(), SpellType::Number);
    assert!(tv.get_literal().is_none());
}

#[test]
fn literal_decode_carries_the_value() {
    let raw = Json::Obj(vec![
        ("literal".to_string(), Json::Num(5)),
        ("type".to_string(), Json::Str("Number".to_string())),
    ]);
    let tv = decode_typed_value(&raw).unwrap();
    assert!(!tv.is_reference());
    assert!(matches!(tv.get_literal().unwrap(), Json::Num(5)));
    assert!(tv.get_reference().is_none());
}

#[test]
fn decode_requires_a_parseable_type() {
    let no_type = Json::Obj(vec![("literal".to_string(), Json::Num(5))]);
    assert!(decode_typed_value(&no_type).is_none());
    let bad_type = Json::Obj(vec![
        ("literal".to_string(), Json::Num(5)),
        ("type".to_string(), Json::Str("Bogus".to_string())),
    ]);
    assert!(decode_typed_value(&bad_type).is_none());
    assert!(decode_typed_value(&Json::Num(5)).is_none());
}

#[test]
fn reference_shape_wins_over_literal_shape() {
    let both = Json::Obj(vec![
        ("ref".to_string(), Json::Str("other".to_string())),
        ("literal".to_string(), Json::Num(5)),
        ("type".to_string(), Json::Str("Any".to_string())),
    ]);
    let tv = decode_typed_value(&both).unwrap();
    assert!(tv.is_reference());
    let non_string_ref = Json::Obj(vec![
        ("ref".to_string(), Json::Num(9)),
        ("literal".to_string(), Json::Num(5)),
        ("type".to_string(), Json::Str("Any".to_string())),
    ]);
    let tv2 = decode_typed_value(&non_string_ref).unwrap();
    assert!(!tv2.is_reference());
}

#[test]
fn typed_value_accessors() {
    let tv = TypedValue::Reference {
        reference: "n".to_string(),
        value_type: SpellType::Any,
    };
    assert!(tv.is_reference());
    assert_eq!(tv.get_reference().unwrap(), "n");
    let lv = TypedValue::Literal {
        literal: Json::Null,
        value_type: SpellType::Unit,
    };
    assert_eq!(*lv.get_type().unwrap(), SpellType::Unit);
    assert!(matches!(lv.get_literal().unwrap(), Json::Null));
}

#[test]
fn typed_args_skip_reserved_keys_and_report_bad_ports() {
    let mut args: Dict<Json> = Dict::new();
    args.insert(
        "value".to_string(),
        Json::Obj(vec![
            ("literal".to_string(), Json::Num(1)),
            ("type".to_string(), Json::Str("Number".to_string())),
        ]),
    );
    args.insert("op".to_string(), Json::Str("sneaky".to_string()));
    args.insert("bare".to_string(), Json::Num(2));
    let node = Node {
        op: "Const".to_string(),
        returns: None,
        args,
    };
    let decoded = node.get_all_typed_args();
    assert_eq!(decoded.len(), 2);
    let value_entry = decoded.iter().find(|(k, _)| k == "value").unwrap();
    assert!(value_entry.1.is_ok());
    let bare_entry = decoded.iter().find(|(k, _)| k == "bare").unwrap();
    match bare_entry.1.as_ref().unwrap_err() {
        Error::MissingTypeAnnotation { port, .. } => assert_eq!(port, "bare"),
        other => panic!("unexpected error: {:?}", other),
    }
}
