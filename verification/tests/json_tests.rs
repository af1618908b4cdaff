use spell::json::{Json, json_eq};

#[test]
fn deep_copy_is_structurally_equal() {
    let v = Json::Obj(vec![
        ("a".to_string(), Json::Num(1)),
        ("b".to_string(), Json::Arr(vec![Json::Bool(true), Json::Null])),
    ]);
    let c = v.deep_copy();
    assert!(json_eq(&v, &c));
}

#[test]
fn structural_equality_discriminates() {
    assert!(json_eq(&Json::Null, &Json::Null));
    assert!(!json_eq(&Json::Null, &Json::Bool(false)));
    assert!(json_eq(&Json::Num(3), &Json::Num(3)));
    assert!(!json_eq(&Json::Num(3), &Json::Num(4)));
    assert!(json_eq(
        &Json::Str("ab".to_string()),
        &Json::Str("ab".to_string())
    ));
    assert!(!json_eq(
        &Json::Str("ab".to_string()),
        &Json::Str("ac".to_string())
    ));
}

#[test]
fn structural_equality_on_arrays_and_objects() {
    let a = Json::Arr(vec![Json::Num(1), Json::Arr(vec![Json::Num(2)])]);
    let b = Json::Arr(vec![Json::Num(1), Json::Arr(vec![Json::Num(2)])]);
    let c = Json::Arr(vec![Json::Num(1), Json::Arr(vec![Json::Num(3)])]);
    assert!(json_eq(&a, &b));
    assert!(!json_eq(&a, &c));
    let o1 = Json::Obj(vec![("k".to_string(), Json::Num(1))]);
    let o2 = Json::Obj(vec![("k".to_string(), Json::Num(1))]);
    let o3 = Json::Obj(vec![("k".to_string(), Json::Num(2))]);
    let o4 = Json::Obj(vec![("j".to_string(), Json::Num(1))]);
    assert!(json_eq(&o1, &o2));
    assert!(!json_eq(&o1, &o3));
    assert!(!json_eq(&o1, &o4));
}

#[test]
fn renders_compact_json() {
    let v = Json::Obj(vec![
        ("a".to_string(), Json::Num(1)),
        (
            "b".to_string(),
            Json::Arr(vec![Json::Bool(true), Json::Null, Json::Num(-20)]),
        ),
    ]);
    assert_eq!(v.to_text(), "{\"a\":1,\"b\":[true,null,-20]}");
}

#[test]
fn renders_numbers() {
    assert_eq!(Json::Num(0).to_text(), "0");
    assert_eq!(Json::Num(907).to_text(), "907");
    assert_eq!(Json::Num(-1).to_text(), "-1");
    assert_eq!(Json::Num(i64::MIN).to_text(), "-9223372036854775808");
    assert_eq!(Json::Num(i64::MAX).to_text(), "9223372036854775807");
}

#[test]
fn renders_escaped_strings() {
    let v = Json::Str("he\"ll\\o\n".to_string());
    assert_eq!(v.to_text(), "\"he\\\"ll\\\\o\\n\"");
    assert_eq!(Json::Str(String::new()).to_text(), "\"\"");
}

#[test]
fn renders_empty_containers() {
    assert_eq!(Json::Arr(vec![]).to_text(), "[]");
    assert_eq!(Json::Obj(vec![]).to_text(), "{}");
}

#[test]
fn renders_control_characters_as_unicode_escapes() {
    let v = Json::Str("\u{01}\u{1f}".to_string());
    assert_eq!(v.to_text(), "\"\\u0001\\u001f\"");
}
