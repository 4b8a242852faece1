use mini_kv::command::Command;
use mini_kv::error::CommandError;
use mini_kv::frame::Frame;

fn bulk(data: &[u8]) -> Frame {
    Frame::Bulk(data.to_vec())
}

fn simple(text: &str) -> Frame {
    Frame::Simple(text.to_string())
}

fn get(key: &str) -> Command {
    Command::Get { key: key.to_string() }
}

fn put(key: &str, value: &[u8]) -> Command {
    Command::Put { key: key.to_string(), value: value.to_vec() }
}

#[test]
fn from_frame_reads_get() {
    let frame = Frame::Array(vec![bulk(b"GET"), bulk(b"foo")]);
    assert_eq!(Command::from_frame(frame), Ok(get("foo")));
}

#[test]
fn from_frame_reads_set() {
    let frame = Frame::Array(vec![bulk(b"SET"), bulk(b"foo"), bulk(b"bar")]);
    assert_eq!(Command::from_frame(frame), Ok(put("foo", b"bar")));
}

#[test]
fn from_frame_takes_the_name_in_either_case() {
    for name in ["get", "GET", "Get", "gEt"] {
        let frame = Frame::Array(vec![bulk(name.as_bytes()), bulk(b"k")]);
        assert_eq!(Command::from_frame(frame), Ok(get("k")));
    }
    for name in ["set", "SET", "sEt"] {
        let frame = Frame::Array(vec![bulk(name.as_bytes()), bulk(b"k"), bulk(b"v")]);
        assert_eq!(Command::from_frame(frame), Ok(put("k", b"v")));
    }
}

#[test]
fn from_frame_takes_the_name_as_a_simple_frame() {
    let frame = Frame::Array(vec![simple("GET"), bulk(b"foo")]);
    assert_eq!(Command::from_frame(frame), Ok(get("foo")));
    let frame = Frame::Array(vec![simple("set"), bulk(b"foo"), bulk(b"bar")]);
    assert_eq!(Command::from_frame(frame), Ok(put("foo", b"bar")));
}

#[test]
fn from_frame_keeps_any_bytes_as_a_value() {
    let value = [0u8, 255, 13, 10, 128];
    let frame = Frame::Array(vec![bulk(b"SET"), bulk(b"k"), bulk(&value)]);
    assert_eq!(Command::from_frame(frame), Ok(put("k", &value)));
}

#[test]
fn from_frame_keeps_a_key_beyond_ascii() {
    let frame = Frame::Array(vec![bulk(b"GET"), bulk("cl\u{e9}".as_bytes())]);
    assert_eq!(Command::from_frame(frame), Ok(get("cl\u{e9}")));
    let frame = Frame::Array(vec![bulk(b"GET"), bulk(b"")]);
    assert_eq!(Command::from_frame(frame), Ok(get("")));
}

#[test]
fn from_frame_refuses_what_is_no_array() {
    for frame in [simple("GET"), bulk(b"GET foo"), Frame::Integer(1), Frame::Null,
        Frame::Error("GET".to_string())]
    {
        assert_eq!(Command::from_frame(frame), Err(CommandError::NotArray));
    }
}

#[test]
fn from_frame_refuses_an_array_without_a_name() {
    assert_eq!(Command::from_frame(Frame::Array(vec![])), Err(CommandError::MissingName));
    for first in [Frame::Integer(1), Frame::Null, Frame::Error("GET".to_string()),
        Frame::Array(vec![bulk(b"GET")])]
    {
        let frame = Frame::Array(vec![first, bulk(b"foo")]);
        assert_eq!(Command::from_frame(frame), Err(CommandError::MissingName));
    }
}

#[test]
fn from_frame_refuses_an_unknown_name() {
    for name in ["DEL", "GETS", "GE", "", "PING", "g\u{e9}t", "get "] {
        let frame = Frame::Array(vec![bulk(name.as_bytes()), bulk(b"foo")]);
        assert_eq!(Command::from_frame(frame), Err(CommandError::UnknownCommand));
    }
}

#[test]
fn from_frame_refuses_a_wrong_number_of_arguments() {
    let frame = Frame::Array(vec![bulk(b"GET")]);
    assert_eq!(Command::from_frame(frame), Err(CommandError::WrongArity));
    let frame = Frame::Array(vec![bulk(b"GET"), bulk(b"a"), bulk(b"b")]);
    assert_eq!(Command::from_frame(frame), Err(CommandError::WrongArity));
    let frame = Frame::Array(vec![bulk(b"SET"), bulk(b"a")]);
    assert_eq!(Command::from_frame(frame), Err(CommandError::WrongArity));
    let frame = Frame::Array(vec![bulk(b"SET")]);
    assert_eq!(Command::from_frame(frame), Err(CommandError::WrongArity));
    let frame = Frame::Array(vec![bulk(b"SET"), bulk(b"a"), bulk(b"b"), bulk(b"EX"), bulk(b"1")]);
    assert_eq!(Command::from_frame(frame), Err(CommandError::WrongArity));
}

#[test]
fn from_frame_refuses_an_argument_of_the_wrong_kind() {
    let frame = Frame::Array(vec![bulk(b"GET"), simple("foo")]);
    assert_eq!(Command::from_frame(frame), Err(CommandError::InvalidArgument));
    let frame = Frame::Array(vec![bulk(b"GET"), Frame::Integer(3)]);
    assert_eq!(Command::from_frame(frame), Err(CommandError::InvalidArgument));
    let frame = Frame::Array(vec![bulk(b"SET"), bulk(b"k"), Frame::Null]);
    assert_eq!(Command::from_frame(frame), Err(CommandError::InvalidArgument));
    let frame = Frame::Array(vec![bulk(b"SET"), Frame::Integer(1), bulk(b"v")]);
    assert_eq!(Command::from_frame(frame), Err(CommandError::InvalidArgument));
}

#[test]
fn from_frame_refuses_a_key_that_is_not_utf8() {
    let frame = Frame::Array(vec![bulk(b"GET"), bulk(b"\xff\xfe")]);
    assert_eq!(Command::from_frame(frame), Err(CommandError::InvalidArgument));
    let frame = Frame::Array(vec![bulk(b"SET"), bulk(b"\xc3"), bulk(b"v")]);
    assert_eq!(Command::from_frame(frame), Err(CommandError::InvalidArgument));
}

#[test]
fn each_error_has_its_message() {
    assert_eq!(CommandError::NotArray.message(), "ERR expected an array");
    assert_eq!(CommandError::MissingName.message(), "ERR missing command name");
    assert_eq!(CommandError::UnknownCommand.message(), "ERR unknown command");
    assert_eq!(CommandError::WrongArity.message(), "ERR wrong number of arguments");
    assert_eq!(CommandError::InvalidArgument.message(), "ERR invalid argument");
}

#[test]
fn clone_copies_a_command() {
    assert_eq!(get("k").clone(), get("k"));
    assert_eq!(put("k", b"v").clone(), put("k", b"v"));
}
