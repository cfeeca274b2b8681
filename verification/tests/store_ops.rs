use treestore::command::Command;
use treestore::node::Node;
use treestore::response::Response;
use treestore::store::Store;
use treestore::value::{ValType, Value};

fn run(store: &mut Store, line: &str) -> Response {
    store.execute(Command::from_str(line).unwrap())
}

#[test]
fn basic_operations() {
    let mut store = Store::new();

    // Create a map `foo`
    let res = run(&mut store, "create . foo map");
    if let Response::Success = res {
    } else {
        panic!("create foo failed: {:?}", res);
    }

    // Create a string `foo.bar`
    let res = run(&mut store, "create foo bar string");
    if let Response::Success = res {
    } else {
        panic!("create foo.bar failed: {:?}", res);
    }

    // Try to create `foo.bar` again (should fail)
    let res = run(&mut store, "create foo bar string");
    if !res.is_err() {
        panic!("duplicate create foo.bar didn't fail: {:?}", res);
    }

    // Update `foo.bar` with 'hello_world'
    let res = run(&mut store, "update foo.bar hello_world");
    if let Response::Success = res {
    } else {
        panic!("update foo.bar failed: {:?}", res);
    }

    // Read 'hello world' from `foo.bar`
    let res = run(&mut store, "read foo.bar");
    match res {
        Response::Value(Value::String(ref s)) => assert_eq!(s, "hello_world"),
        _ => panic!("expected a string value but got {:?}", res),
    };
}

#[test]
fn round_trip_fresh_string_is_empty() {
    let mut store = Store::new();
    assert!(matches!(run(&mut store, "create . foo map"), Response::Success));
    assert!(matches!(run(&mut store, "create foo bar string"), Response::Success));
    let res = run(&mut store, "read foo.bar");
    match res {
        Response::Value(Value::String(ref s)) => assert_eq!(s, ""),
        _ => panic!("expected an empty string value but got {:?}", res),
    }
    assert_eq!(res.to_text(), "value ");
}

#[test]
fn duplicate_create_reports_and_preserves() {
    let mut store = Store::new();
    assert!(matches!(run(&mut store, "create . foo map"), Response::Success));
    assert!(matches!(run(&mut store, "create foo bar string"), Response::Success));
    assert!(matches!(run(&mut store, "update foo.bar kept"), Response::Success));
    let res = run(&mut store, "create foo bar string");
    match res {
        Response::Error(m) => assert_eq!(m, "node already exists"),
        _ => panic!("duplicate create didn't fail: {:?}", res),
    }
    assert_eq!(res.to_text(), "error :node already exists");
    // the tree is unchanged: the earlier update is still there
    match run(&mut store, "read foo.bar") {
        Response::Value(Value::String(ref s)) => assert_eq!(s, "kept"),
        other => panic!("expected the kept string but got {:?}", other),
    }
}

#[test]
fn update_then_read_returns_value() {
    let mut store = Store::new();
    assert!(matches!(run(&mut store, "create . foo map"), Response::Success));
    assert!(matches!(run(&mut store, "create foo bar string"), Response::Success));
    assert!(matches!(run(&mut store, "update foo.bar hello_world"), Response::Success));
    let res = run(&mut store, "read foo.bar");
    assert_eq!(res.to_text(), "value hello_world");
}

#[test]
fn update_map_node_always_fails() {
    let mut store = Store::new();
    assert!(matches!(run(&mut store, "create . m map"), Response::Success));
    for text in ["x", "true", "0", ":with spaces"] {
        let res = store.execute(
            Command::from_str(&format!("update m {}", text)).unwrap(),
        );
        match res {
            Response::Error(m) => assert_eq!(m, "can't update a map node"),
            other => panic!("update of a map node succeeded: {:?}", other),
        }
    }
    // the root itself is a map
    match run(&mut store, "update . anything") {
        Response::Error(m) => assert_eq!(m, "can't update a map node"),
        other => panic!("update of the root succeeded: {:?}", other),
    }
}

#[test]
fn missing_node_is_reported() {
    let mut store = Store::new();
    match run(&mut store, "read nothing.here") {
        Response::Error(m) => assert_eq!(m, "node does not exist"),
        other => panic!("read of a missing node: {:?}", other),
    }
    match run(&mut store, "update nothing 5") {
        Response::Error(m) => assert_eq!(m, "node does not exist"),
        other => panic!("update of a missing node: {:?}", other),
    }
    // a path through a non-map parent is reported distinctly
    assert!(matches!(run(&mut store, "create . s string"), Response::Success));
    match run(&mut store, "read s.child") {
        Response::Error(m) => {
            assert_eq!(m, "node does not exist (some parent node does but is not a map)")
        },
        other => panic!("read through a scalar: {:?}", other),
    }
    // create under a missing parent
    match run(&mut store, "create nothing x string") {
        Response::Error(m) => assert_eq!(m, "node does not exist"),
        other => panic!("create under a missing parent: {:?}", other),
    }
    // create under a scalar parent
    match run(&mut store, "create s x string") {
        Response::Error(m) => assert_eq!(m, "parents exist but is not a map"),
        other => panic!("create under a scalar parent: {:?}", other),
    }
}

#[test]
fn default_values_by_type() {
    let mut store = Store::new();
    for (ty, expected) in [
        ("empty", "value empty"),
        ("boolean", "value false"),
        ("integer", "value 0"),
        ("float", "value 0"),
        ("string", "value "),
        ("map", "value map"),
    ] {
        let name = format!("n_{}", ty);
        let res = store.execute(
            Command::from_str(&format!("create . {} {}", name, ty)).unwrap(),
        );
        assert!(matches!(res, Response::Success), "create {} failed: {:?}", ty, res);
        let res = store.execute(Command::from_str(&format!("read {}", name)).unwrap());
        assert_eq!(res.to_text(), expected, "wrong default for {}", ty);
    }
}

#[test]
fn with_type_defaults() {
    assert!(matches!(Node::with_type(&ValType::Empty).value(), Value::Empty));
    assert!(matches!(
        Node::with_type(&ValType::Boolean).value(),
        Value::Boolean(false)
    ));
    assert!(matches!(
        Node::with_type(&ValType::Integer).value(),
        Value::Integer(0)
    ));
    match Node::with_type(&ValType::Float).value() {
        Value::Float(t) => assert_eq!(t.as_str(), "0"),
        other => panic!("expected a float default but got {:?}", other),
    }
    match Node::with_type(&ValType::String).value() {
        Value::String(s) => assert_eq!(s.as_str(), ""),
        other => panic!("expected a string default but got {:?}", other),
    }
    match Node::with_type(&ValType::Mapping).value() {
        Value::Mapping(es) => assert!(es.is_empty()),
        other => panic!("expected an empty mapping but got {:?}", other),
    }
}

#[test]
fn typed_updates_and_errors() {
    let mut store = Store::new();
    assert!(matches!(run(&mut store, "create . i integer"), Response::Success));
    assert!(matches!(run(&mut store, "create . b boolean"), Response::Success));
    assert!(matches!(run(&mut store, "create . f float"), Response::Success));

    assert!(matches!(run(&mut store, "update i -42"), Response::Success));
    assert_eq!(run(&mut store, "read i").to_text(), "value -42");
    match run(&mut store, "update i 12a") {
        Response::Error(m) => assert_eq!(m, "invalid integer"),
        other => panic!("bad integer accepted: {:?}", other),
    }
    assert_eq!(run(&mut store, "read i").to_text(), "value -42");

    assert!(matches!(run(&mut store, "update b true"), Response::Success));
    assert_eq!(run(&mut store, "read b").to_text(), "value true");
    match run(&mut store, "update b yes") {
        Response::Error(m) => assert_eq!(m, "invalid boolean"),
        other => panic!("bad boolean accepted: {:?}", other),
    }

    assert!(matches!(run(&mut store, "update f 3.5"), Response::Success));
    assert_eq!(run(&mut store, "read f").to_text(), "value 3.5");
    match run(&mut store, "update f 1.2.3") {
        Response::Error(m) => assert_eq!(m, "invalid float"),
        other => panic!("bad float accepted: {:?}", other),
    }
}

#[test]
fn disjoint_subtrees_stay_intact() {
    // interleave operations against disjoint subtrees and check the final
    // contents equal the sum of all successful operations
    let mut store = Store::new();
    assert!(matches!(run(&mut store, "create . a map"), Response::Success));
    assert!(matches!(run(&mut store, "create . b map"), Response::Success));
    assert!(matches!(run(&mut store, "create a x string"), Response::Success));
    assert!(matches!(run(&mut store, "create b x string"), Response::Success));
    assert!(matches!(run(&mut store, "update a.x from_a"), Response::Success));
    assert!(matches!(run(&mut store, "update b.x from_b"), Response::Success));
    assert!(matches!(run(&mut store, "create a y integer"), Response::Success));
    assert!(matches!(run(&mut store, "update b.x :from b again"), Response::Success));
    assert!(matches!(run(&mut store, "update a.y 7"), Response::Success));
    assert_eq!(run(&mut store, "read a.x").to_text(), "value from_a");
    assert_eq!(run(&mut store, "read a.y").to_text(), "value 7");
    assert_eq!(run(&mut store, "read b.x").to_text(), "value from b again");
}

#[test]
fn get_node_resolves() {
    let mut store = Store::new();
    assert!(matches!(run(&mut store, "create . foo map"), Response::Success));
    assert!(matches!(run(&mut store, "create foo bar integer"), Response::Success));
    let spec = treestore::nodespec::NodeSpec::from_str("foo.bar").unwrap();
    let node = store.get_node(&spec).unwrap();
    assert!(matches!(node.read_value(), Value::Integer(0)));
    let missing = treestore::nodespec::NodeSpec::from_str("foo.baz").unwrap();
    assert_eq!(store.get_node(&missing).unwrap_err(), "node does not exist");
}
