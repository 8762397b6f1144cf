use kawa_broadcast::chunker::{Chunker, CHUNK_SIZE};
use kawa_broadcast::framing::{ConnError, Progress};
use kawa_broadcast::websocket::{WebSocketChunker, WEBSOCKET_CHUNK_SIZE};

/// Writes `data` once through a chunked encoder; the connection gives `replies` in turn.
fn chunk_write(
    enc: &mut Chunker,
    data: &[u8],
    replies: &mut Vec<Result<usize, ConnError>>,
    wire: &mut Vec<u8>,
) -> Result<Option<usize>, ConnError> {
    let mut written = 0;
    loop {
        let bytes = enc.next_write(data, written).to_vec();
        let reply = if replies.is_empty() { Ok(bytes.len()) } else { replies.remove(0) };
        let reply = reply.map(|n| n.min(bytes.len()));
        if let Ok(n) = reply {
            wire.extend_from_slice(&bytes[..n]);
        }
        match enc.write(data, written, reply) {
            Progress::More(n) => written = n,
            Progress::Done(r) => return r,
        }
    }
}

fn message_write(
    enc: &mut WebSocketChunker,
    data: &[u8],
    replies: &mut Vec<Result<usize, ConnError>>,
    wire: &mut Vec<u8>,
) -> Result<Option<usize>, ConnError> {
    let mut written = 0;
    loop {
        let bytes = enc.next_write(data, written).to_vec();
        let reply = if replies.is_empty() { Ok(bytes.len()) } else { replies.remove(0) };
        let reply = reply.map(|n| n.min(bytes.len()));
        if let Ok(n) = reply {
            wire.extend_from_slice(&bytes[..n]);
        }
        match enc.write(data, written, reply) {
            Progress::More(n) => written = n,
            Progress::Done(r) => return r,
        }
    }
}

/// The payload of a chunked stream, and what is left when it does not parse.
fn dechunk(mut wire: &[u8]) -> Vec<u8> {
    let mut out = Vec::new();
    while !wire.is_empty() {
        let head = 6.min(wire.len());
        assert_eq!(&wire[..head], &b"1000\r\n"[..head]);
        wire = &wire[head..];
        let body = CHUNK_SIZE.min(wire.len());
        out.extend_from_slice(&wire[..body]);
        wire = &wire[body..];
        let foot = 2.min(wire.len());
        assert_eq!(&wire[..foot], &b"\r\n"[..foot]);
        wire = &wire[foot..];
    }
    out
}

fn pattern(n: usize) -> Vec<u8> {
    (0..n).map(|i| (i * 7 % 251) as u8).collect()
}

#[test]
fn chunker_starts_with_the_chunk_size() {
    let enc = Chunker::new();
    assert_eq!(enc.next_write(b"abc", 0), b"1000\r\n");
}

#[test]
fn chunker_writes_header_then_body() {
    let mut enc = Chunker::new();
    let mut wire = Vec::new();
    let r = chunk_write(&mut enc, b"abc", &mut vec![], &mut wire);
    assert_eq!(r, Ok(Some(3)));
    assert_eq!(wire, b"1000\r\nabc");
    let r = chunk_write(&mut enc, b"def", &mut vec![], &mut wire);
    assert_eq!(r, Ok(Some(3)));
    assert_eq!(wire, b"1000\r\nabcdef");
    assert!(matches!(enc, Chunker::Body(6)));
}

#[test]
fn chunker_ends_a_full_chunk_and_begins_the_next() {
    let mut enc = Chunker::new();
    let mut wire = Vec::new();
    let data = pattern(CHUNK_SIZE);
    let r = chunk_write(&mut enc, &data, &mut vec![], &mut wire);
    assert_eq!(r, Ok(Some(CHUNK_SIZE)));
    let mut expected = b"1000\r\n".to_vec();
    expected.extend_from_slice(&data);
    expected.extend_from_slice(b"\r\n1000\r\n");
    assert_eq!(wire, expected);
    assert!(matches!(enc, Chunker::Body(0)));
}

#[test]
fn chunker_spreads_long_data_over_chunks() {
    let mut enc = Chunker::new();
    let mut wire = Vec::new();
    let data = pattern(3 * CHUNK_SIZE + 5);
    let r = chunk_write(&mut enc, &data, &mut vec![], &mut wire);
    assert_eq!(r, Ok(Some(data.len())));
    assert_eq!(wire.len(), data.len() + 4 * 6 + 3 * 2);
    assert_eq!(dechunk(&wire), data);
}

#[test]
fn chunker_reports_a_partial_header_as_no_count() {
    let mut enc = Chunker::new();
    let mut wire = Vec::new();
    let r = chunk_write(&mut enc, b"abc", &mut vec![Ok(4)], &mut wire);
    assert_eq!(r, Ok(None));
    assert_eq!(enc.next_write(b"abc", 0), b"\r\n");
    let r = chunk_write(&mut enc, b"abc", &mut vec![], &mut wire);
    assert_eq!(r, Ok(Some(3)));
    assert_eq!(wire, b"1000\r\nabc");
}

#[test]
fn chunker_reports_an_error_before_any_data() {
    let mut enc = Chunker::new();
    let mut wire = Vec::new();
    let r = chunk_write(&mut enc, b"abc", &mut vec![Err(ConnError::Other)], &mut wire);
    assert_eq!(r, Err(ConnError::Other));
    let r = chunk_write(
        &mut enc,
        b"abc",
        &mut vec![Ok(6), Err(ConnError::WouldBlock)],
        &mut wire,
    );
    assert_eq!(r, Err(ConnError::WouldBlock));
    assert_eq!(wire, b"1000\r\n");
    assert!(matches!(enc, Chunker::Body(0)));
}

#[test]
fn chunker_keeps_the_count_of_a_full_chunk_when_a_later_write_fails() {
    for stop in [Ok(1), Err(ConnError::WouldBlock), Err(ConnError::Other)] {
        let mut enc = Chunker::new();
        let mut wire = Vec::new();
        let data = pattern(CHUNK_SIZE + 10);
        let mut replies = vec![Ok(6), Ok(CHUNK_SIZE), stop];
        let r = chunk_write(&mut enc, &data, &mut replies, &mut wire);
        assert_eq!(r, Ok(Some(CHUNK_SIZE)));
        assert!(matches!(enc, Chunker::Footer(_)));
        let r = chunk_write(&mut enc, &data[CHUNK_SIZE..], &mut vec![], &mut wire);
        assert_eq!(r, Ok(Some(10)));
        assert_eq!(dechunk(&wire), data);
    }
}

#[test]
fn chunker_takes_no_data_when_the_body_takes_none() {
    let mut enc = Chunker::Body(17);
    let mut wire = Vec::new();
    assert_eq!(chunk_write(&mut enc, b"abc", &mut vec![Ok(0)], &mut wire), Ok(Some(0)));
    assert_eq!(chunk_write(&mut enc, b"", &mut vec![], &mut wire), Ok(Some(0)));
    assert!(matches!(enc, Chunker::Body(17)));
}

#[test]
fn chunker_fills_the_chunk_that_was_begun() {
    let enc = Chunker::Body(CHUNK_SIZE - 2);
    assert_eq!(enc.next_write(b"abcdef", 0), b"ab");
    assert_eq!(enc.next_write(b"abcdef", 3), b"de");
    assert_eq!(enc.next_write(b"abcdef", 5), b"f");
}

#[test]
fn chunked_stream_reads_back_however_it_is_cut() {
    let data = pattern(2 * CHUNK_SIZE + 700);
    for step in [1usize, 2, 3, 5, 7, 1000, 4095, 4097] {
        let mut enc = Chunker::new();
        let mut wire = Vec::new();
        let mut done = 0;
        while done < data.len() {
            let mut replies = vec![Ok(step); 3];
            match chunk_write(&mut enc, &data[done..], &mut replies, &mut wire) {
                Ok(Some(n)) => done += n,
                Ok(None) => {}
                Err(e) => panic!("{:?}", e),
            }
            assert_eq!(dechunk(&wire), &data[..done]);
        }
    }
}

#[test]
fn splitting_data_between_writes_changes_nothing() {
    let data = pattern(2 * CHUNK_SIZE + 100);
    let mut whole = Vec::new();
    let mut enc = Chunker::new();
    assert_eq!(chunk_write(&mut enc, &data, &mut vec![], &mut whole), Ok(Some(data.len())));
    for at in [0, 1, 100, CHUNK_SIZE - 1, CHUNK_SIZE, CHUNK_SIZE + 1, 2 * CHUNK_SIZE] {
        let mut wire = Vec::new();
        let mut enc = Chunker::new();
        for part in [&data[..at], &data[at..]] {
            assert_eq!(chunk_write(&mut enc, part, &mut vec![], &mut wire), Ok(Some(part.len())));
        }
        assert_eq!(wire, whole);
        assert!(matches!(enc, Chunker::Body(100)));
    }
}

#[test]
fn an_encoding_ends_after_so_many_writes() {
    let data = pattern(2 * CHUNK_SIZE + 100);
    let mut enc = Chunker::new();
    let mut written = 0;
    let mut writes = 0;
    loop {
        let n = enc.next_write(&data, written).len();
        writes += 1;
        match enc.write(&data, written, Ok(n)) {
            Progress::More(w) => written = w,
            Progress::Done(r) => {
                assert_eq!(r, Ok(Some(data.len())));
                break;
            }
        }
    }
    assert_eq!(writes, 3 * 2 + 2);
}

#[test]
fn a_message_stream_ends_after_so_many_writes() {
    let data = pattern(2 * WEBSOCKET_CHUNK_SIZE + 100);
    let mut enc = WebSocketChunker::new();
    let mut written = 0;
    let mut writes = 0;
    loop {
        let n = enc.next_write(&data, written).len();
        writes += 1;
        match enc.write(&data, written, Ok(n)) {
            Progress::More(w) => written = w,
            Progress::Done(r) => {
                assert_eq!(r, Ok(Some(data.len())));
                break;
            }
        }
    }
    assert_eq!(writes, 2 * 2 + 2);
}

#[test]
fn message_header_announces_4096_bytes() {
    let enc = WebSocketChunker::new();
    assert_eq!(enc.next_write(b"abc", 0), [0x82, 0x7e, 0x10, 0x00]);
}

#[test]
fn messages_follow_each_other_without_footer() {
    let mut enc = WebSocketChunker::new();
    let mut wire = Vec::new();
    let data = pattern(WEBSOCKET_CHUNK_SIZE + 3);
    let r = message_write(&mut enc, &data, &mut vec![], &mut wire);
    assert_eq!(r, Ok(Some(data.len())));
    let mut expected = vec![0x82, 0x7e, 0x10, 0x00];
    expected.extend_from_slice(&data[..WEBSOCKET_CHUNK_SIZE]);
    expected.extend_from_slice(&[0x82, 0x7e, 0x10, 0x00]);
    expected.extend_from_slice(&data[WEBSOCKET_CHUNK_SIZE..]);
    assert_eq!(wire, expected);
    assert!(matches!(enc, WebSocketChunker::Body(3)));
}

#[test]
fn message_header_can_be_taken_in_parts() {
    let mut enc = WebSocketChunker::new();
    let mut wire = Vec::new();
    assert_eq!(message_write(&mut enc, b"abc", &mut vec![Ok(1)], &mut wire), Ok(None));
    assert_eq!(message_write(&mut enc, b"abc", &mut vec![Ok(2)], &mut wire), Ok(None));
    assert_eq!(message_write(&mut enc, b"abc", &mut vec![], &mut wire), Ok(Some(3)));
    assert_eq!(wire, [0x82, 0x7e, 0x10, 0x00, b'a', b'b', b'c']);
}

#[test]
fn message_errors_are_reported_only_before_a_full_message() {
    let data = pattern(WEBSOCKET_CHUNK_SIZE + 1);
    let mut enc = WebSocketChunker::new();
    let mut wire = Vec::new();
    let r = message_write(&mut enc, &data, &mut vec![Err(ConnError::Other)], &mut wire);
    assert_eq!(r, Err(ConnError::Other));
    let mut replies = vec![Ok(4), Ok(WEBSOCKET_CHUNK_SIZE), Err(ConnError::Other)];
    let r = message_write(&mut enc, &data, &mut replies, &mut wire);
    assert_eq!(r, Ok(Some(WEBSOCKET_CHUNK_SIZE)));
    assert!(matches!(enc, WebSocketChunker::Header(_)));
}
