use treestore::codec::CommandCodec;
use treestore::command::Command;
use treestore::nodespec::NodeSpec;
use treestore::response::Response;
use treestore::store::Store;
use treestore::value::Value;

#[test]
fn frames_lines_as_they_complete() {
    let mut codec = CommandCodec::new();
    assert!(codec.next_command().is_none());

    codec.feed(b"read fo");
    assert!(!codec.has_line());
    assert!(codec.next_command().is_none());

    codec.feed(b"o\nread bar\nupd");
    assert!(codec.has_line());
    assert_eq!(
        codec.next_command(),
        Some(Ok(Command::Read(NodeSpec::from_str("foo").unwrap())))
    );
    assert_eq!(
        codec.next_command(),
        Some(Ok(Command::Read(NodeSpec::from_str("bar").unwrap())))
    );
    assert!(codec.next_command().is_none());

    codec.feed(b"ate foo :hello world\n");
    assert_eq!(
        codec.next_command(),
        Some(Ok(Command::Update(
            NodeSpec::from_str("foo").unwrap(),
            "hello world".to_string()
        )))
    );
}

#[test]
fn parse_errors_are_items_not_failures() {
    let mut codec = CommandCodec::new();
    codec.feed(b"bogus line\nread ok\n");
    assert_eq!(codec.next_command(), Some(Err("unknown command")));
    assert_eq!(
        codec.next_command(),
        Some(Ok(Command::Read(NodeSpec::from_str("ok").unwrap())))
    );
}

#[test]
fn invalid_utf8_is_reported_per_line() {
    let mut codec = CommandCodec::new();
    codec.feed(&[0xffu8, 0xfe, b'\n']);
    codec.feed(b"read x\n");
    assert_eq!(codec.next_command(), Some(Err("invalid utf-8")));
    assert_eq!(
        codec.next_command(),
        Some(Ok(Command::Read(NodeSpec::from_str("x").unwrap())))
    );
}

#[test]
fn buffers_responses_with_newlines() {
    let mut codec = CommandCodec::new();
    assert!(!codec.has_pending());
    codec.buffer(Response::Success);
    codec.buffer(Response::Error("node does not exist"));
    codec.buffer(Response::Value(Value::String("hi".to_string())));
    assert_eq!(
        codec.pending(),
        b"success\nerror :node does not exist\nvalue hi\n"
    );
}

#[test]
fn consume_drops_written_prefix() {
    let mut codec = CommandCodec::new();
    codec.buffer(Response::Success);
    assert_eq!(codec.pending(), b"success\n");
    codec.consume(3);
    assert_eq!(codec.pending(), b"cess\n");
    let rest = codec.pending().len();
    codec.consume(rest);
    assert!(!codec.has_pending());
}

#[test]
fn commands_over_codec_against_store() {
    // a whole session as the connection handler would run it, socket aside
    let mut codec = CommandCodec::new();
    let mut store = Store::new();
    codec.feed(b"create . foo map\ncreate foo bar string\nupdate foo.bar :hello world\nread foo.bar\nread foo.baz\n");
    let mut out: Vec<u8> = Vec::new();
    while let Some(item) = codec.next_command() {
        let response = match item {
            Ok(cmd) => store.execute(cmd),
            Err(e) => Response::Error(e),
        };
        codec.buffer(response);
        let written = codec.pending().to_vec();
        out.extend_from_slice(&written);
        codec.consume(written.len());
    }
    assert_eq!(
        String::from_utf8(out).unwrap(),
        "success\nsuccess\nsuccess\nvalue hello world\nerror :node does not exist\n"
    );
}
