use mini_kv::codec::{check, encode, parse};
use mini_kv::connection::{Connection, ReadStep};
use mini_kv::error::ConnectionError;
use mini_kv::frame::Frame;
use mini_kv::handler::handle_frame;
use mini_kv::store::Store;

/// Reads one frame as the owner of a connection does: it asks, and hands
/// over the next chunk whenever it is asked for a read; after the last
/// chunk the peer has closed.
fn read_one(connection: &mut Connection, reads: &mut Vec<Vec<u8>>) -> ReadStep {
    let mut step = connection.read_frame();
    while step == ReadStep::NeedRead {
        let data = if reads.is_empty() { Vec::new() } else { reads.remove(0) };
        step = connection.received(&data);
    }
    step
}

fn chunks(bytes: &[u8], size: usize) -> Vec<Vec<u8>> {
    bytes.chunks(size).map(|chunk| chunk.to_vec()).collect()
}

fn replies() -> Vec<Frame> {
    vec![
        Frame::Simple("OK".to_string()),
        Frame::Bulk(b"bar".to_vec()),
        Frame::Null,
        Frame::Bulk(b"\r\n+OK\r\n".to_vec()),
        Frame::Integer(12),
        Frame::Error("ERR unknown command".to_string()),
        Frame::Bulk(Vec::new()),
    ]
}

#[test]
fn frames_come_out_in_order_however_the_stream_is_cut() {
    let frames = replies();
    let mut bytes = Vec::new();
    for frame in &frames {
        bytes.extend_from_slice(&encode(frame).unwrap());
    }
    for size in 1..=bytes.len() {
        let mut connection = Connection::new();
        let mut reads = chunks(&bytes, size);
        for frame in &frames {
            assert_eq!(read_one(&mut connection, &mut reads), ReadStep::Frame(frame.clone()));
        }
        assert_eq!(read_one(&mut connection, &mut reads), ReadStep::Closed);
        assert_eq!(connection.pending(), 0);
    }
}

#[test]
fn frames_come_out_in_order_from_a_buffer_that_is_partly_filled() {
    let frames = replies();
    let mut bytes = Vec::new();
    for frame in &frames {
        bytes.extend_from_slice(&encode(frame).unwrap());
    }
    for cut in 1..bytes.len() {
        let mut connection = Connection::new();
        let first = connection.received(&bytes[..cut]);
        let mut reads = vec![bytes[cut..].to_vec()];
        let mut found = Vec::new();
        let mut step = first;
        loop {
            match step {
                ReadStep::Frame(frame) => found.push(frame),
                ReadStep::NeedRead => {
                    let data = if reads.is_empty() { Vec::new() } else { reads.remove(0) };
                    step = connection.received(&data);
                    continue;
                }
                ReadStep::Closed => break,
                ReadStep::Failed(e) => panic!("failed: {:?}", e),
            }
            step = connection.read_frame();
        }
        assert_eq!(found, frames);
    }
}

#[test]
fn a_stream_that_ends_inside_a_frame_is_a_reset() {
    let whole: Vec<&[u8]> = vec![
        b"+OK\r\n",
        b":42\r\n",
        b"$3\r\nbar\r\n",
        b"$-1\r\n",
        b"*2\r\n$3\r\nGET\r\n$3\r\nfoo\r\n",
    ];
    for bytes in whole {
        for k in 1..bytes.len() {
            for size in 1..=k {
                let mut connection = Connection::new();
                let mut reads = chunks(&bytes[..k], size);
                assert_eq!(
                    read_one(&mut connection, &mut reads),
                    ReadStep::Failed(ConnectionError::ConnectionReset)
                );
                assert_eq!(connection.pending(), k);
            }
        }
        let mut connection = Connection::new();
        let mut reads = Vec::new();
        assert_eq!(read_one(&mut connection, &mut reads), ReadStep::Closed);
    }
}

#[test]
fn a_stream_that_ends_inside_the_second_frame_gives_the_first() {
    let bytes = b"+OK\r\n$3\r\nba";
    for size in 1..=bytes.len() {
        let mut connection = Connection::new();
        let mut reads = chunks(bytes, size);
        assert_eq!(
            read_one(&mut connection, &mut reads),
            ReadStep::Frame(Frame::Simple("OK".to_string()))
        );
        assert_eq!(
            read_one(&mut connection, &mut reads),
            ReadStep::Failed(ConnectionError::ConnectionReset)
        );
    }
}

#[test]
fn each_command_of_a_run_gets_its_own_reply() {
    let mut requests = Vec::new();
    let mut expected = Vec::new();
    for i in 0..100usize {
        let key = format!("key-{}", i % 10);
        if i % 3 == 0 {
            let value = format!("value-{}", i);
            requests.push(format!(
                "*3\r\n$3\r\nSET\r\n${}\r\n{}\r\n${}\r\n{}\r\n",
                key.len(),
                key,
                value.len(),
                value
            ));
            expected.push(Frame::Simple("OK".to_string()));
        } else {
            requests.push(format!("*2\r\n$3\r\nGET\r\n${}\r\n{}\r\n", key.len(), key));
            let last = (0..i).rev().find(|j| j % 3 == 0 && j % 10 == i % 10);
            expected.push(match last {
                Some(j) => Frame::Bulk(format!("value-{}", j).into_bytes()),
                None => Frame::Null,
            });
        }
    }
    let stream: Vec<u8> = requests.iter().flat_map(|r| r.as_bytes().to_vec()).collect();
    let mut store = Store::new();
    let mut server = Connection::new();
    let mut client = Connection::new();
    let mut reads = chunks(&stream, 7);
    let mut sent = Vec::new();
    let mut count = 0;
    loop {
        match read_one(&mut server, &mut reads) {
            ReadStep::Frame(frame) => {
                let handled = handle_frame(&mut store, frame);
                assert!(!handled.close);
                assert_eq!(server.write_frame(&handled.reply), Ok(()));
                let bytes = server.take_outgoing();
                assert_eq!(check(&bytes), Ok(bytes.len()));
                assert_eq!(parse(&bytes), expected[count]);
                sent.extend_from_slice(&bytes);
                count += 1;
            }
            ReadStep::Closed => break,
            other => panic!("unexpected: {:?}", other),
        }
    }
    assert_eq!(count, 100);
    let mut reads = chunks(&sent, 5);
    for reply in &expected {
        assert_eq!(read_one(&mut client, &mut reads), ReadStep::Frame(reply.clone()));
    }
    assert_eq!(read_one(&mut client, &mut reads), ReadStep::Closed);
}
