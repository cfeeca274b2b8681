use treestore::command::Command;
use treestore::nodespec::NodeSpec;
use treestore::value::{ValType, Value};

#[test]
fn parse_read_command() {
    assert!(Command::from_str("read").is_err());

    assert_eq!(
        Command::from_str("read foo.bar"),
        Ok(Command::Read(NodeSpec::from_str("foo.bar").unwrap()))
    );
    assert_eq!(
        Command::from_str("read :foo.bar"),
        Ok(Command::Read(NodeSpec::from_str("foo.bar").unwrap()))
    );
}

#[test]
fn parse_update_command() {
    assert!(Command::from_str("update").is_err());
    assert!(Command::from_str("update foo").is_err());
    assert!(Command::from_str("update foo hello world").is_err());

    assert_eq!(
        Command::from_str("update foo bar"),
        Ok(Command::Update(
            NodeSpec::from_str("foo").unwrap(),
            "bar".to_string()
        ))
    );

    assert_eq!(
        Command::from_str("update foo :hello world"),
        Ok(Command::Update(
            NodeSpec::from_str("foo").unwrap(),
            "hello world".to_string()
        ))
    );
}

#[test]
fn node_parse_simple_nodespec() {}

#[test]
fn nodespec_parse_simple_nodespec() {
    assert_eq!(
        NodeSpec::from_str("foo").map(|n| n.iter().clone()),
        Ok(vec!["foo".to_string()])
    );
    assert_eq!(
        NodeSpec::from_str("bar").map(|n| n.iter().clone()),
        Ok(vec!["bar".to_string()])
    );

    assert_eq!(
        NodeSpec::from_str("foo.bar").map(|n| n.iter().clone()),
        Ok(vec!["foo".to_string(), "bar".to_string()])
    );
}

#[test]
fn value_parse_simple_nodespec() {}

#[test]
fn parse_update_colon_preserves_spaces() {
    assert_eq!(
        Command::from_str("update a.b :hello world"),
        Ok(Command::Update(
            NodeSpec::from_str("a.b").unwrap(),
            "hello world".to_string()
        ))
    );
    assert_eq!(
        Command::from_str("update a.b hello world"),
        Err("too many arguments (expected 2)")
    );
}

#[test]
fn parse_create_command() {
    assert_eq!(
        Command::from_str("create . foo map"),
        Ok(Command::Create(
            NodeSpec::from_str(".").unwrap(),
            "foo".to_string(),
            ValType::Mapping
        ))
    );
    assert_eq!(
        Command::from_str("create"),
        Err("missing nodespec (1st argument)")
    );
    assert_eq!(
        Command::from_str("create ."),
        Err("missing name (2nd argument)")
    );
    assert_eq!(
        Command::from_str("create . foo"),
        Err("missing valtype (3rd argument)")
    );
    assert_eq!(Command::from_str("create . foo widget"), Err("invalid type"));
    assert_eq!(
        Command::from_str("create . foo map extra"),
        Err("too many arguments (expected 3)")
    );
}

#[test]
fn parse_unknown_and_arity() {
    assert_eq!(Command::from_str("delete foo"), Err("unknown command"));
    assert_eq!(Command::from_str(""), Err("unknown command"));
    assert_eq!(
        Command::from_str("read a b"),
        Err("too many arguments (expected 1)")
    );
}

#[test]
fn parse_root_nodespec() {
    let root = NodeSpec::from_str(".").unwrap();
    assert!(root.iter().is_empty());
}

#[test]
fn parse_valtype_tokens() {
    assert_eq!(ValType::from_str("empty"), Ok(ValType::Empty));
    assert_eq!(ValType::from_str("boolean"), Ok(ValType::Boolean));
    assert_eq!(ValType::from_str("integer"), Ok(ValType::Integer));
    assert_eq!(ValType::from_str("float"), Ok(ValType::Float));
    assert_eq!(ValType::from_str("string"), Ok(ValType::String));
    assert_eq!(ValType::from_str("map"), Ok(ValType::Mapping));
    assert_eq!(ValType::from_str("Map"), Err("invalid type"));
}

#[test]
fn parse_value_by_type() {
    assert!(matches!(
        Value::from_str("anything", &ValType::Empty),
        Ok(Value::Empty)
    ));
    assert!(matches!(
        Value::from_str("true", &ValType::Boolean),
        Ok(Value::Boolean(true))
    ));
    assert!(matches!(
        Value::from_str("false", &ValType::Boolean),
        Ok(Value::Boolean(false))
    ));
    assert_eq!(
        Value::from_str("tru", &ValType::Boolean).unwrap_err(),
        "invalid boolean"
    );
    assert!(matches!(
        Value::from_str("-42", &ValType::Integer),
        Ok(Value::Integer(-42))
    ));
    assert!(matches!(
        Value::from_str("9223372036854775807", &ValType::Integer),
        Ok(Value::Integer(9223372036854775807))
    ));
    assert!(matches!(
        Value::from_str("-9223372036854775808", &ValType::Integer),
        Ok(Value::Integer(-9223372036854775808))
    ));
    assert_eq!(
        Value::from_str("9223372036854775808", &ValType::Integer).unwrap_err(),
        "invalid integer"
    );
    assert_eq!(
        Value::from_str("12a", &ValType::Integer).unwrap_err(),
        "invalid integer"
    );
    assert_eq!(
        Value::from_str("", &ValType::Integer).unwrap_err(),
        "invalid integer"
    );
    assert_eq!(
        Value::from_str("anything", &ValType::Mapping).unwrap_err(),
        "can't update a map node"
    );
    match Value::from_str("hello", &ValType::String) {
        Ok(Value::String(s)) => assert_eq!(s, "hello"),
        other => panic!("expected a string value but got {:?}", other),
    }
}

#[test]
fn parse_float_literals() {
    for ok in [
        "0", "3.5", "-3.5", "+0.5", ".5", "5.", "2.5E10", "1e-3", "-1E+4", "inf", "-inf",
        "Infinity", "NaN", "nan",
    ] {
        assert!(
            matches!(Value::from_str(ok, &ValType::Float), Ok(Value::Float(_))),
            "expected {:?} to be accepted",
            ok
        );
    }
    for bad in ["", ".", "1.2.3", "e5", "1e", "1e+", "--1", "0x1", "1 "] {
        assert_eq!(
            Value::from_str(bad, &ValType::Float).unwrap_err(),
            "invalid float",
            "expected {:?} to be rejected",
            bad
        );
    }
}
