use spell::dict::Dict;
use spell::engine::Engine;
use spell::error::Error;
use spell::json::{json_eq, Json};
use spell::schema::{Graph, Node};
use spell::types::SpellType;

fn literal(v: Json, t: &str) -> Json {
    Json::Obj(vec![
        ("literal".to_string(), v),
        ("type".to_string(), Json::Str(t.to_string())),
    ])
}

fn reference(id: &str, t: &str) -> Json {
    Json::Obj(vec![
        ("ref".to_string(), Json::Str(id.to_string())),
        ("type".to_string(), Json::Str(t.to_string())),
    ])
}

fn node(op: &str, returns: Option<SpellType>, args: Vec<(&str, Json)>) -> Node {
    let mut d: Dict<Json> = Dict::new();
    for (k, v) in args {
        d.insert(k.to_string(), v);
    }
    Node {
        op: op.to_string(),
        returns,
        args: d,
    }
}

fn graph(nodes: Vec<(&str, Node)>) -> Graph {
    let mut d: Dict<Node> = Dict::new();
    for (k, v) in nodes {
        d.insert(k.to_string(), v);
    }
    Graph { nodes: d }
}

#[test]
fn arithmetic_chain() {
    let g = graph(vec![
        (
            "a",
            node(
                "Const",
                Some(SpellType::Number),
                vec![("value", literal(Json::Num(2), "Number"))],
            ),
        ),
        (
            "b",
            node(
                "Const",
                Some(SpellType::Number),
                vec![("value", literal(Json::Num(3), "Number"))],
            ),
        ),
        (
            "s",
            node(
                "Add",
                Some(SpellType::Number),
                vec![("a", reference("a", "Number")), ("b", reference("b", "Number"))],
            ),
        ),
    ]);
    let mut engine = Engine::new(g);
    let v = engine.resolve("s").unwrap();
    assert!(json_eq(&v, &Json::Num(5)));
}

#[test]
fn cycle_is_detected() {
    let g = graph(vec![
        (
            "x",
            node(
                "Const",
                Some(SpellType::Number),
                vec![("value", reference("y", "Number"))],
            ),
        ),
        (
            "y",
            node(
                "Const",
                Some(SpellType::Number),
                vec![("value", reference("x", "Number"))],
            ),
        ),
    ]);
    let mut engine = Engine::new(g);
    assert!(matches!(
        engine.resolve("x").unwrap_err(),
        Error::CycleDetected(_)
    ));
    assert!(matches!(
        engine.resolve("y").unwrap_err(),
        Error::CycleDetected(_)
    ));
}

#[test]
fn reference_type_mismatch() {
    let g = graph(vec![
        (
            "n",
            node(
                "Const",
                Some(SpellType::Number),
                vec![("value", literal(Json::Num(1), "Number"))],
            ),
        ),
        (
            "bad",
            node("Print", None, vec![("in", reference("n", "String"))]),
        ),
    ]);
    let mut engine = Engine::new(g);
    match engine.resolve("bad").unwrap_err() {
        Error::TypeMismatch {
            node,
            port,
            expected,
            actual,
        } => {
            assert_eq!(node, "bad");
            assert_eq!(port, "in");
            assert_eq!(expected, SpellType::Str);
            assert_eq!(actual, SpellType::Number);
        }
        other => panic!("unexpected error: {:?}", other),
    }
}

#[test]
fn division_by_zero_carries_node_context() {
    let g = graph(vec![
        (
            "z",
            node(
                "Const",
                Some(SpellType::Number),
                vec![("value", literal(Json::Num(0), "Number"))],
            ),
        ),
        (
            "o",
            node(
                "Const",
                Some(SpellType::Number),
                vec![("value", literal(Json::Num(1), "Number"))],
            ),
        ),
        (
            "d",
            node(
                "Div",
                Some(SpellType::Number),
                vec![("a", reference("o", "Number")), ("b", reference("z", "Number"))],
            ),
        ),
    ]);
    let mut engine = Engine::new(g);
    match engine.resolve("d").unwrap_err() {
        Error::OperationError { node, reason } => {
            assert_eq!(node, "d");
            assert_eq!(reason, "Division by zero");
        }
        other => panic!("unexpected error: {:?}", other),
    }
}

#[test]
fn map_node_with_static_params() {
    let g = graph(vec![
        (
            "L",
            node(
                "Const",
                Some(SpellType::Array(Box::new(SpellType::Number))),
                vec![(
                    "value",
                    literal(
                        Json::Arr(vec![Json::Num(1), Json::Num(2), Json::Num(3)]),
                        "Array<Number>",
                    ),
                )],
            ),
        ),
        (
            "M",
            node(
                "Map",
                Some(SpellType::Array(Box::new(SpellType::Number))),
                vec![
                    ("list", reference("L", "Array<Number>")),
                    ("apply_op", literal(Json::Str("Add".to_string()), "String")),
                    ("arg", literal(Json::Str("a".to_string()), "String")),
                    (
                        "params",
                        literal(Json::Obj(vec![("b".to_string(), Json::Num(10))]), "Any"),
                    ),
                ],
            ),
        ),
    ]);
    let mut engine = Engine::new(g);
    let v = engine.resolve("M").unwrap();
    assert!(json_eq(
        &v,
        &Json::Arr(vec![Json::Num(11), Json::Num(12), Json::Num(13)])
    ));
}

#[test]
fn filter_node_keeps_large_elements() {
    let g = graph(vec![
        (
            "L",
            node(
                "Const",
                Some(SpellType::Array(Box::new(SpellType::Number))),
                vec![(
                    "value",
                    literal(
                        Json::Arr(vec![Json::Num(1), Json::Num(2), Json::Num(3)]),
                        "Array<Number>",
                    ),
                )],
            ),
        ),
        (
            "F",
            node(
                "Filter",
                Some(SpellType::Array(Box::new(SpellType::Number))),
                vec![
                    ("list", reference("L", "Array<Number>")),
                    ("apply_op", literal(Json::Str("Gt".to_string()), "String")),
                    ("arg", literal(Json::Str("a".to_string()), "String")),
                    (
                        "params",
                        literal(Json::Obj(vec![("b".to_string(), Json::Num(1))]), "Any"),
                    ),
                ],
            ),
        ),
    ]);
    let mut engine = Engine::new(g);
    let v = engine.resolve("F").unwrap();
    assert!(json_eq(&v, &Json::Arr(vec![Json::Num(2), Json::Num(3)])));
}

#[test]
fn resolve_is_idempotent() {
    let g = graph(vec![(
        "a",
        node(
            "Const",
            Some(SpellType::Number),
            vec![("value", literal(Json::Num(42), "Number"))],
        ),
    )]);
    let mut engine = Engine::new(g);
    let first = engine.resolve("a").unwrap();
    let second = engine.resolve("a").unwrap();
    assert!(json_eq(&first, &second));
    assert!(json_eq(&first, &Json::Num(42)));
}

#[test]
fn missing_node_is_reported() {
    let g = graph(vec![(
        "a",
        node("Print", None, vec![("in", reference("ghostly", "Any"))]),
    )]);
    let mut engine = Engine::new(g);
    match engine.resolve("a").unwrap_err() {
        Error::NodeNotFound(id) => assert_eq!(id, "ghostly"),
        other => panic!("unexpected error: {:?}", other),
    }
    match engine.resolve("nowhere").unwrap_err() {
        Error::NodeNotFound(id) => assert_eq!(id, "nowhere"),
        other => panic!("unexpected error: {:?}", other),
    }
}

#[test]
fn unknown_operation_is_reported() {
    let g = graph(vec![("a", node("Conjure", None, vec![]))]);
    let mut engine = Engine::new(g);
    match engine.resolve("a").unwrap_err() {
        Error::UnknownOperation(name) => assert_eq!(name, "Conjure"),
        other => panic!("unexpected error: {:?}", other),
    }
}

#[test]
fn literal_must_match_declared_type() {
    let g = graph(vec![(
        "a",
        node(
            "Const",
            None,
            vec![("value", literal(Json::Num(1), "String"))],
        ),
    )]);
    let mut engine = Engine::new(g);
    match engine.resolve("a").unwrap_err() {
        Error::InvalidValue {
            node,
            port,
            expected_type,
            actual_value,
        } => {
            assert_eq!(node, "a");
            assert_eq!(port, "value");
            assert_eq!(expected_type, SpellType::Str);
            assert_eq!(actual_value, "1");
        }
        other => panic!("unexpected error: {:?}", other),
    }
}

#[test]
fn declared_return_is_checked() {
    let g = graph(vec![(
        "a",
        node(
            "Const",
            Some(SpellType::Str),
            vec![("value", literal(Json::Num(1), "Any"))],
        ),
    )]);
    let mut engine = Engine::new(g);
    match engine.resolve("a").unwrap_err() {
        Error::InvalidValue { node, port, .. } => {
            assert_eq!(node, "a");
            assert_eq!(port, "out");
        }
        other => panic!("unexpected error: {:?}", other),
    }
}

#[test]
fn argument_without_type_annotation_is_reported() {
    let g = graph(vec![(
        "a",
        node("Const", None, vec![("value", Json::Num(1))]),
    )]);
    let mut engine = Engine::new(g);
    match engine.resolve("a").unwrap_err() {
        Error::MissingTypeAnnotation { node, port } => {
            assert_eq!(node, "a");
            assert_eq!(port, "value");
        }
        other => panic!("unexpected error: {:?}", other),
    }
}

#[test]
fn run_reports_errors_without_stopping() {
    let g = graph(vec![
        (
            "x",
            node(
                "Const",
                None,
                vec![("value", reference("y", "Number"))],
            ),
        ),
        (
            "y",
            node(
                "Const",
                None,
                vec![("value", reference("x", "Number"))],
            ),
        ),
        (
            "ok",
            node(
                "Const",
                Some(SpellType::Number),
                vec![("value", literal(Json::Num(1), "Number"))],
            ),
        ),
    ]);
    let mut engine = Engine::new(g);
    let errs = engine.run();
    assert_eq!(errs.len(), 2);
    for e in errs {
        assert!(matches!(e, Error::CycleDetected(_)));
    }
}

#[test]
fn diamond_dependencies_are_not_cycles() {
    // Two consumers of one shared producer: the visiting set is scoped
    // to a traversal, so the second use hits the cache, not a cycle.
    let g = graph(vec![
        (
            "base",
            node(
                "Const",
                Some(SpellType::Number),
                vec![("value", literal(Json::Num(4), "Number"))],
            ),
        ),
        (
            "twice",
            node(
                "Add",
                Some(SpellType::Number),
                vec![
                    ("a", reference("base", "Number")),
                    ("b", reference("base", "Number")),
                ],
            ),
        ),
    ]);
    let mut engine = Engine::new(g);
    let v = engine.resolve("twice").unwrap();
    assert!(json_eq(&v, &Json::Num(8)));
}

#[test]
fn reduce_node_sums_a_list() {
    let g = graph(vec![
        (
            "L",
            node(
                "Const",
                Some(SpellType::Array(Box::new(SpellType::Number))),
                vec![(
                    "value",
                    literal(
                        Json::Arr(vec![Json::Num(1), Json::Num(2), Json::Num(3)]),
                        "Array<Number>",
                    ),
                )],
            ),
        ),
        (
            "R",
            node(
                "Reduce",
                Some(SpellType::Number),
                vec![
                    ("list", reference("L", "Array<Number>")),
                    ("apply_op", literal(Json::Str("Add".to_string()), "String")),
                    ("initial", literal(Json::Num(0), "Number")),
                    ("acc_arg", literal(Json::Str("a".to_string()), "String")),
                    ("item_arg", literal(Json::Str("b".to_string()), "String")),
                ],
            ),
        ),
    ]);
    let mut engine = Engine::new(g);
    let v = engine.resolve("R").unwrap();
    assert!(json_eq(&v, &Json::Num(6)));
}

#[test]
fn len_node_counts() {
    let g = graph(vec![
        (
            "L",
            node(
                "Const",
                None,
                vec![(
                    "value",
                    literal(Json::Arr(vec![Json::Null, Json::Null]), "Array<Any>"),
                )],
            ),
        ),
        (
            "n",
            node(
                "Len",
                Some(SpellType::Number),
                vec![("list", reference("L", "Array<Any>"))],
            ),
        ),
    ]);
    let mut engine = Engine::new(g);
    let v = engine.resolve("n").unwrap();
    assert!(json_eq(&v, &Json::Num(2)));
}

#[test]
fn switch_node_selects() {
    let g = graph(vec![(
        "s",
        node(
            "Switch",
            None,
            vec![
                ("cond", literal(Json::Bool(true), "Boolean")),
                ("true", literal(Json::Str("yes".to_string()), "String")),
                ("false", literal(Json::Str("no".to_string()), "String")),
            ],
        ),
    )]);
    let mut engine = Engine::new(g);
    let v = engine.resolve("s").unwrap();
    assert!(json_eq(&v, &Json::Str("yes".to_string())));
}

#[test]
fn print_passes_its_input_through() {
    let g = graph(vec![(
        "p",
        node(
            "Print",
            Some(SpellType::Number),
            vec![("in", literal(Json::Num(11), "Number"))],
        ),
    )]);
    let mut engine = Engine::new(g);
    let v = engine.resolve("p").unwrap();
    assert!(json_eq(&v, &Json::Num(11)));
}

#[test]
fn reference_succeeds_exactly_when_value_matches() {
    // The positive half of the reference type-check law: the referenced
    // node resolves, its value matches the declared type, and that very
    // value arrives at the consuming port.
    let g = graph(vec![
        (
            "n",
            node(
                "Const",
                Some(SpellType::Number),
                vec![("value", literal(Json::Num(1), "Number"))],
            ),
        ),
        (
            "ok",
            node("Print", None, vec![("in", reference("n", "Number"))]),
        ),
        (
            "loose",
            node("Print", None, vec![("in", reference("n", "Any"))]),
        ),
    ]);
    let mut engine = Engine::new(g);
    assert!(json_eq(&engine.resolve("ok").unwrap(), &Json::Num(1)));
    assert!(json_eq(&engine.resolve("loose").unwrap(), &Json::Num(1)));
}
