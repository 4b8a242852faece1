use mini_kv::codec::{check, encode, parse};
use mini_kv::connection::{Connection, ReadStep};
use mini_kv::frame::Frame;
use mini_kv::handler::{handle_frame, into_response_frame, Handled};
use mini_kv::store::{Outcome, Store};

fn bulk(data: &[u8]) -> Frame {
    Frame::Bulk(data.to_vec())
}

fn frame_of(bytes: &[u8]) -> Frame {
    assert_eq!(check(bytes), Ok(bytes.len()));
    parse(bytes)
}

fn reply(frame: Frame) -> Handled {
    Handled { reply: frame, close: false }
}

fn refusal(message: &str) -> Handled {
    Handled { reply: Frame::Error(message.to_string()), close: true }
}

#[test]
fn into_response_frame_maps_each_result() {
    assert_eq!(into_response_frame(Ok(Outcome::Found(b"bar".to_vec()))), bulk(b"bar"));
    assert_eq!(into_response_frame(Ok(Outcome::Found(Vec::new()))), bulk(b""));
    assert_eq!(into_response_frame(Ok(Outcome::Missing)), Frame::Null);
    assert_eq!(into_response_frame(Ok(Outcome::Stored)), Frame::Simple("OK".to_string()));
    assert_eq!(
        into_response_frame(Err("ERR backend gone".to_string())),
        Frame::Error("ERR backend gone".to_string())
    );
}

#[test]
fn set_then_get_returns_the_value() {
    let mut store = Store::new();
    let set = frame_of(b"*3\r\n$3\r\nSET\r\n$3\r\nfoo\r\n$3\r\nbar\r\n");
    let get = frame_of(b"*2\r\n$3\r\nGET\r\n$3\r\nfoo\r\n");
    assert_eq!(handle_frame(&mut store, set), reply(Frame::Simple("OK".to_string())));
    assert_eq!(handle_frame(&mut store, get), reply(bulk(b"bar")));
}

#[test]
fn get_on_an_absent_key_returns_null() {
    let mut store = Store::new();
    let get = frame_of(b"*2\r\n$3\r\nGET\r\n$3\r\nfoo\r\n");
    assert_eq!(handle_frame(&mut store, get), reply(Frame::Null));
}

#[test]
fn get_without_a_key_is_answered_with_an_error() {
    let mut store = Store::new();
    let get = frame_of(b"*1\r\n$3\r\nGET\r\n");
    assert_eq!(handle_frame(&mut store, get), refusal("ERR wrong number of arguments"));
    assert_eq!(store.get("foo"), None);
}

#[test]
fn a_frame_that_is_no_command_is_answered_with_an_error() {
    let mut store = Store::new();
    store.set("foo".to_string(), b"bar".to_vec());
    assert_eq!(handle_frame(&mut store, frame_of(b"+GET\r\n")), refusal("ERR expected an array"));
    assert_eq!(handle_frame(&mut store, frame_of(b"*0\r\n")), refusal("ERR missing command name"));
    assert_eq!(
        handle_frame(&mut store, frame_of(b"*2\r\n$3\r\nDEL\r\n$3\r\nfoo\r\n")),
        refusal("ERR unknown command")
    );
    assert_eq!(
        handle_frame(&mut store, frame_of(b"*2\r\n$3\r\nGET\r\n:1\r\n")),
        refusal("ERR invalid argument")
    );
    assert_eq!(store.get("foo"), Some(b"bar".to_vec()));
}

#[test]
fn every_reply_can_be_written() {
    let mut store = Store::new();
    let requests: Vec<&[u8]> = vec![
        b"*3\r\n$3\r\nSET\r\n$1\r\nk\r\n$4\r\n\r\n\r\n\r\n",
        b"*2\r\n$3\r\nGET\r\n$1\r\nk\r\n",
        b"*2\r\n$3\r\nGET\r\n$1\r\nx\r\n",
        b"*1\r\n$3\r\nGET\r\n",
        b"$-1\r\n",
    ];
    let replies: Vec<&[u8]> = vec![
        b"+OK\r\n",
        b"$4\r\n\r\n\r\n\r\n",
        b"$-1\r\n",
        b"-ERR wrong number of arguments\r\n",
        b"-ERR expected an array\r\n",
    ];
    for (request, expected) in requests.into_iter().zip(replies) {
        let handled = handle_frame(&mut store, frame_of(request));
        assert_eq!(encode(&handled.reply), Ok(expected.to_vec()));
    }
}

#[test]
fn a_server_and_a_client_talk_over_two_connections() {
    let mut store = Store::new();
    let mut server = Connection::new();
    let mut client = Connection::new();
    let requests: Vec<&[u8]> = vec![
        b"*3\r\n$3\r\nSET\r\n$3\r\nfoo\r\n$3\r\nbar\r\n",
        b"*2\r\n$3\r\nGET\r\n$3\r\nfoo\r\n",
        b"*2\r\n$3\r\nGET\r\n$3\r\nnil\r\n",
    ];
    let replies = vec![Frame::Simple("OK".to_string()), bulk(b"bar"), Frame::Null];
    for (request, expected) in requests.into_iter().zip(replies) {
        let frame = match server.received(request) {
            ReadStep::Frame(frame) => frame,
            other => panic!("no frame: {:?}", other),
        };
        let handled = handle_frame(&mut store, frame);
        assert!(!handled.close);
        assert_eq!(server.write_frame(&handled.reply), Ok(()));
        let sent = server.take_outgoing();
        assert_eq!(client.received(&sent), ReadStep::Frame(expected));
    }
    assert_eq!(server.received(b""), ReadStep::Closed);
}
