use spell::dict::Dict;
use spell::error::Error;
use spell::json::{json_eq, Json};
use spell::ops::{Operation, Ops};

fn inputs(pairs: Vec<(&str, Json)>) -> Dict<Json> {
    let mut d: Dict<Json> = Dict::new();
    for (k, v) in pairs {
        d.insert(k.to_string(), v);
    }
    d
}

fn out_of(r: Result<Dict<Json>, Error>) -> Json {
    let outs = r.unwrap();
    outs.get("out").unwrap().deep_copy()
}

#[test]
fn registry_knows_every_builtin() {
    for name in [
        "Const", "Print", "Add", "Sub", "Mul", "Div", "Eq", "Gt", "Lt", "Switch", "Map",
        "Reduce", "Len", "Filter",
    ] {
        assert!(Ops::get(name).is_some(), "missing {}", name);
    }
    assert!(Ops::get("Nope").is_none());
    assert!(Ops::get("const").is_none());
}

#[test]
fn const_passes_value_through() {
    let r = Ops::get("Const")
        .unwrap()
        .execute(&inputs(vec![("value", Json::Num(7))]));
    assert!(json_eq(&out_of(r), &Json::Num(7)));
}

#[test]
fn const_requires_value() {
    let r = Ops::get("Const").unwrap().execute(&inputs(vec![]));
    match r.unwrap_err() {
        Error::MissingInput { node, port } => {
            assert_eq!(node, "unknown");
            assert_eq!(port, "value");
        }
        other => panic!("unexpected error: {:?}", other),
    }
}

#[test]
fn arithmetic_results() {
    let ab = |a: i64, b: i64| inputs(vec![("a", Json::Num(a)), ("b", Json::Num(b))]);
    assert!(json_eq(
        &out_of(Operation::Add.execute(&ab(2, 3))),
        &Json::Num(5)
    ));
    assert!(json_eq(
        &out_of(Operation::Sub.execute(&ab(2, 3))),
        &Json::Num(-1)
    ));
    assert!(json_eq(
        &out_of(Operation::Mul.execute(&ab(4, 3))),
        &Json::Num(12)
    ));
    assert!(json_eq(
        &out_of(Operation::Div.execute(&ab(6, 2))),
        &Json::Num(3)
    ));
}

#[test]
fn inexact_division_is_reported() {
    // The integer value model cannot hold a fractional quotient.
    let ins = inputs(vec![("a", Json::Num(7)), ("b", Json::Num(2))]);
    match Operation::Div.execute(&ins).unwrap_err() {
        Error::OperationError { reason, .. } => assert_eq!(reason, "inexact division"),
        other => panic!("unexpected error: {:?}", other),
    }
    let neg = inputs(vec![("a", Json::Num(-9)), ("b", Json::Num(3))]);
    assert!(json_eq(
        &out_of(Operation::Div.execute(&neg)),
        &Json::Num(-3)
    ));
}

#[test]
fn division_by_zero_is_reported() {
    let ins = inputs(vec![("a", Json::Num(1)), ("b", Json::Num(0))]);
    match Operation::Div.execute(&ins).unwrap_err() {
        Error::OperationError { node, reason } => {
            assert_eq!(node, "unknown");
            assert_eq!(reason, "Division by zero");
        }
        other => panic!("unexpected error: {:?}", other),
    }
}

#[test]
fn arithmetic_overflow_is_reported() {
    let ins = inputs(vec![("a", Json::Num(i64::MAX)), ("b", Json::Num(1))]);
    match Operation::Add.execute(&ins).unwrap_err() {
        Error::OperationError { reason, .. } => assert_eq!(reason, "arithmetic overflow"),
        other => panic!("unexpected error: {:?}", other),
    }
}

#[test]
fn arithmetic_rejects_non_numbers() {
    let ins = inputs(vec![("a", Json::Bool(true)), ("b", Json::Num(1))]);
    match Operation::Add.execute(&ins).unwrap_err() {
        Error::InvalidType { expected, .. } => assert_eq!(expected, "number"),
        other => panic!("unexpected error: {:?}", other),
    }
}

#[test]
fn comparisons_on_numbers() {
    let ab = |a: i64, b: i64| inputs(vec![("a", Json::Num(a)), ("b", Json::Num(b))]);
    assert!(json_eq(
        &out_of(Operation::Gt.execute(&ab(3, 2))),
        &Json::Bool(true)
    ));
    assert!(json_eq(
        &out_of(Operation::Lt.execute(&ab(3, 2))),
        &Json::Bool(false)
    ));
    assert!(json_eq(
        &out_of(Operation::Eq.execute(&ab(3, 3))),
        &Json::Bool(true)
    ));
}

#[test]
fn eq_falls_back_to_structural_equality() {
    let ins = inputs(vec![
        ("a", Json::Arr(vec![Json::Num(1), Json::Null])),
        ("b", Json::Arr(vec![Json::Num(1), Json::Null])),
    ]);
    assert!(json_eq(
        &out_of(Operation::Eq.execute(&ins)),
        &Json::Bool(true)
    ));
    let ins2 = inputs(vec![("a", Json::Num(1)), ("b", Json::Str("1".to_string()))]);
    assert!(json_eq(
        &out_of(Operation::Eq.execute(&ins2)),
        &Json::Bool(false)
    ));
}

#[test]
fn ordering_on_mixed_shapes_is_a_type_error() {
    let ins = inputs(vec![("a", Json::Num(1)), ("b", Json::Str("1".to_string()))]);
    match Operation::Gt.execute(&ins).unwrap_err() {
        Error::InvalidType { expected, .. } => assert_eq!(expected, "comparable numbers"),
        other => panic!("unexpected error: {:?}", other),
    }
}

#[test]
fn switch_selects_a_branch() {
    let ins = inputs(vec![
        ("cond", Json::Bool(false)),
        ("true", Json::Num(1)),
        ("false", Json::Num(2)),
    ]);
    let outs = Operation::Switch.execute(&ins).unwrap();
    assert!(json_eq(outs.get("out").unwrap(), &Json::Num(2)));
    assert!(outs.get("true").is_none());
    assert!(outs.get("false").is_none());
}

#[test]
fn switch_routes_data() {
    let ins = inputs(vec![("cond", Json::Bool(true)), ("data", Json::Num(9))]);
    let outs = Operation::Switch.execute(&ins).unwrap();
    assert!(json_eq(outs.get("out").unwrap(), &Json::Num(9)));
    assert!(json_eq(outs.get("true").unwrap(), &Json::Num(9)));
    assert!(outs.get("false").is_none());
}

#[test]
fn len_counts_elements() {
    let ins = inputs(vec![(
        "list",
        Json::Arr(vec![Json::Num(1), Json::Num(2), Json::Num(3)]),
    )]);
    assert!(json_eq(
        &out_of(Operation::Len.execute(&ins)),
        &Json::Num(3)
    ));
}

#[test]
fn len_rejects_non_arrays() {
    let ins = inputs(vec![("list", Json::Num(1))]);
    match Operation::Len.execute(&ins).unwrap_err() {
        Error::InvalidType { expected, .. } => assert_eq!(expected, "array"),
        other => panic!("unexpected error: {:?}", other),
    }
}

#[test]
fn map_applies_operation_with_params() {
    let ins = inputs(vec![
        (
            "list",
            Json::Arr(vec![Json::Num(1), Json::Num(2), Json::Num(3)]),
        ),
        ("apply_op", Json::Str("Add".to_string())),
        ("arg", Json::Str("a".to_string())),
        ("params", Json::Obj(vec![("b".to_string(), Json::Num(10))])),
    ]);
    let out = out_of(Ops::get("Map").unwrap().execute(&ins));
    assert!(json_eq(
        &out,
        &Json::Arr(vec![Json::Num(11), Json::Num(12), Json::Num(13)])
    ));
}

#[test]
fn map_unknown_operation_is_reported() {
    let ins = inputs(vec![
        ("list", Json::Arr(vec![Json::Num(1)])),
        ("apply_op", Json::Str("Nope".to_string())),
        ("arg", Json::Str("a".to_string())),
    ]);
    match Ops::get("Map").unwrap().execute(&ins).unwrap_err() {
        Error::UnknownOperation(name) => assert_eq!(name, "Nope"),
        other => panic!("unexpected error: {:?}", other),
    }
}

#[test]
fn reduce_folds_the_list() {
    let ins = inputs(vec![
        (
            "list",
            Json::Arr(vec![Json::Num(1), Json::Num(2), Json::Num(3)]),
        ),
        ("apply_op", Json::Str("Add".to_string())),
        ("initial", Json::Num(0)),
        ("acc_arg", Json::Str("a".to_string())),
        ("item_arg", Json::Str("b".to_string())),
    ]);
    let out = out_of(Ops::get("Reduce").unwrap().execute(&ins));
    assert!(json_eq(&out, &Json::Num(6)));
}

#[test]
fn filter_keeps_matching_elements() {
    let ins = inputs(vec![
        (
            "list",
            Json::Arr(vec![Json::Num(1), Json::Num(2), Json::Num(3)]),
        ),
        ("apply_op", Json::Str("Gt".to_string())),
        ("arg", Json::Str("a".to_string())),
        ("params", Json::Obj(vec![("b".to_string(), Json::Num(1))])),
    ]);
    let out = out_of(Ops::get("Filter").unwrap().execute(&ins));
    assert!(json_eq(&out, &Json::Arr(vec![Json::Num(2), Json::Num(3)])));
}

#[test]
fn filter_treats_non_boolean_results_as_false() {
    // The inner operation yields numbers, never booleans: everything is
    // dropped.
    let ins = inputs(vec![
        ("list", Json::Arr(vec![Json::Num(1), Json::Num(2)])),
        ("apply_op", Json::Str("Add".to_string())),
        ("arg", Json::Str("a".to_string())),
        ("params", Json::Obj(vec![("b".to_string(), Json::Num(1))])),
    ]);
    let out = out_of(Ops::get("Filter").unwrap().execute(&ins));
    assert!(json_eq(&out, &Json::Arr(vec![])));
}

#[test]
fn map_on_empty_list_is_empty() {
    let ins = inputs(vec![
        ("list", Json::Arr(vec![])),
        ("apply_op", Json::Str("Add".to_string())),
        ("arg", Json::Str("a".to_string())),
    ]);
    let out = out_of(Ops::get("Map").unwrap().execute(&ins));
    assert!(json_eq(&out, &Json::Arr(vec![])));
}

#[test]
fn reduce_of_empty_list_is_the_initial_value() {
    let ins = inputs(vec![
        ("list", Json::Arr(vec![])),
        ("apply_op", Json::Str("Add".to_string())),
        ("initial", Json::Num(41)),
        ("acc_arg", Json::Str("a".to_string())),
        ("item_arg", Json::Str("b".to_string())),
    ]);
    let out = out_of(Ops::get("Reduce").unwrap().execute(&ins));
    assert!(json_eq(&out, &Json::Num(41)));
}
