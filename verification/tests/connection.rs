use mini_kv::codec::encode;
use mini_kv::connection::{Connection, ReadStep};
use mini_kv::error::{ConnectionError, EncodeError};
use mini_kv::frame::Frame;

fn bulk(data: &[u8]) -> Frame {
    Frame::Bulk(data.to_vec())
}

#[test]
fn a_new_connection_holds_nothing() {
    let mut connection = Connection::new();
    assert_eq!(connection.pending(), 0);
    assert_eq!(connection.take_outgoing(), Vec::<u8>::new());
    assert_eq!(connection.read_frame(), ReadStep::NeedRead);
}

#[test]
fn a_frame_comes_out_only_with_its_last_byte() {
    let frames = vec![
        Frame::Simple("OK".to_string()),
        Frame::Error("ERR no".to_string()),
        Frame::Integer(77),
        bulk(b"some\r\nbytes"),
        Frame::Null,
    ];
    for frame in frames {
        let bytes = encode(&frame).unwrap();
        let mut connection = Connection::new();
        assert_eq!(connection.read_frame(), ReadStep::NeedRead);
        for (i, byte) in bytes.iter().enumerate() {
            let step = connection.received(&[*byte]);
            if i + 1 < bytes.len() {
                assert_eq!(step, ReadStep::NeedRead);
                assert_eq!(connection.pending(), i + 1);
            } else {
                assert_eq!(step, ReadStep::Frame(frame.clone()));
            }
        }
        assert_eq!(connection.pending(), 0);
        assert_eq!(connection.read_frame(), ReadStep::NeedRead);
    }
}

#[test]
fn an_array_comes_out_only_with_its_last_byte() {
    let bytes = b"*3\r\n$3\r\nSET\r\n$3\r\nfoo\r\n$3\r\nbar\r\n";
    let mut connection = Connection::new();
    for (i, byte) in bytes.iter().enumerate() {
        let step = connection.received(&[*byte]);
        if i + 1 < bytes.len() {
            assert_eq!(step, ReadStep::NeedRead);
        } else {
            assert_eq!(
                step,
                ReadStep::Frame(Frame::Array(vec![bulk(b"SET"), bulk(b"foo"), bulk(b"bar")]))
            );
        }
    }
    assert_eq!(connection.pending(), 0);
}

#[test]
fn parse_frame_takes_exactly_one_frame() {
    let mut connection = Connection::new();
    assert_eq!(connection.parse_frame(), Ok(None));
    assert_eq!(
        connection.received(b"+one\r\n:2\r\n$5\r\nthr"),
        ReadStep::Frame(Frame::Simple("one".to_string()))
    );
    assert_eq!(connection.pending(), 11);
    assert_eq!(connection.parse_frame(), Ok(Some(Frame::Integer(2))));
    assert_eq!(connection.pending(), 7);
    assert_eq!(connection.parse_frame(), Ok(None));
    assert_eq!(connection.pending(), 7);
    assert_eq!(connection.received(b"ee\r\n"), ReadStep::Frame(bulk(b"three")));
    assert_eq!(connection.pending(), 0);
    assert_eq!(connection.parse_frame(), Ok(None));
}

#[test]
fn closing_between_frames_ends_the_stream() {
    let mut connection = Connection::new();
    assert_eq!(connection.received(b""), ReadStep::Closed);
    assert_eq!(connection.received(b"+OK\r\n"), ReadStep::Frame(Frame::Simple("OK".to_string())));
    assert_eq!(connection.received(b""), ReadStep::Closed);
}

#[test]
fn closing_inside_a_frame_is_a_reset() {
    let mut connection = Connection::new();
    assert_eq!(connection.received(b"$5\r\nab"), ReadStep::NeedRead);
    assert_eq!(
        connection.received(b""),
        ReadStep::Failed(ConnectionError::ConnectionReset)
    );
    assert_eq!(connection.pending(), 6);
}

#[test]
fn malformed_bytes_fail_the_connection() {
    let mut connection = Connection::new();
    assert_eq!(
        connection.received(b"hello\r\n"),
        ReadStep::Failed(ConnectionError::Protocol)
    );
    assert_eq!(connection.pending(), 7);
    assert_eq!(connection.parse_frame(), Err(ConnectionError::Protocol));
    assert_eq!(connection.read_frame(), ReadStep::Failed(ConnectionError::Protocol));
}

#[test]
fn write_frame_queues_whole_frames_in_order() {
    let mut connection = Connection::new();
    assert_eq!(connection.write_frame(&Frame::Simple("OK".to_string())), Ok(()));
    assert_eq!(connection.write_frame(&bulk(b"bar")), Ok(()));
    assert_eq!(connection.write_frame(&Frame::Null), Ok(()));
    assert_eq!(connection.take_outgoing(), b"+OK\r\n$3\r\nbar\r\n$-1\r\n".to_vec());
    assert_eq!(connection.take_outgoing(), Vec::<u8>::new());
}

#[test]
fn write_frame_queues_nothing_of_a_frame_it_refuses() {
    let mut connection = Connection::new();
    assert_eq!(connection.write_frame(&Frame::Integer(5)), Ok(()));
    assert_eq!(
        connection.write_frame(&Frame::Array(vec![Frame::Null])),
        Err(EncodeError::UnsupportedArray)
    );
    assert_eq!(
        connection.write_frame(&Frame::Simple("two\r\nlines".to_string())),
        Err(EncodeError::InvalidText)
    );
    assert_eq!(connection.take_outgoing(), b":5\r\n".to_vec());
}

#[test]
fn reading_and_writing_do_not_touch_each_other() {
    let mut connection = Connection::new();
    assert_eq!(connection.received(b"+par"), ReadStep::NeedRead);
    assert_eq!(connection.write_frame(&Frame::Integer(1)), Ok(()));
    assert_eq!(connection.pending(), 4);
    assert_eq!(connection.received(b"tial\r\n"), ReadStep::Frame(Frame::Simple("partial".to_string())));
    assert_eq!(connection.take_outgoing(), b":1\r\n".to_vec());
}

#[test]
fn each_failure_has_its_words() {
    assert_eq!(ConnectionError::ConnectionReset.message(), "connection reset by peer");
    assert_eq!(ConnectionError::Protocol.message(), "protocol error; invalid frame format");
    assert_eq!(EncodeError::UnsupportedArray.message(), "array frames cannot be written");
    assert_eq!(
        EncodeError::InvalidText.message(),
        "text with a line terminator cannot be written"
    );
    assert_eq!(mini_kv::error::FrameError::Incomplete.message(), "stream ended early");
    assert_eq!(
        mini_kv::error::FrameError::Protocol.message(),
        "protocol error; invalid frame format"
    );
}

#[test]
fn a_closed_stream_is_reported_whatever_the_buffer_holds() {
    let mut connection = Connection::new();
    let big = vec![b'x'; 1 << 16];
    let mut header = b"$100000\r\n".to_vec();
    header.extend_from_slice(&big);
    assert_eq!(connection.received(&header), ReadStep::NeedRead);
    assert_eq!(
        connection.received(b""),
        ReadStep::Failed(ConnectionError::ConnectionReset)
    );
    assert_eq!(connection.pending(), header.len());
}
