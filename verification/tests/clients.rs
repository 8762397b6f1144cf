use kawa_broadcast::buffer::BufferData;
use kawa_broadcast::client::{
    BufferStep, BufferWrite, Client, FlushStep, SendStep, CLIENT_BUFFER_LEN, WR,
};
use kawa_broadcast::config::{Codec, Container, StreamConfig};
use kawa_broadcast::framing::ConnError;
use kawa_broadcast::request::Agent;

/// What a connection answers: a list of answers, and then always the last.
struct Peer {
    answers: Vec<Result<usize, ConnError>>,
    then: Result<usize, ConnError>,
    wire: Vec<u8>,
}

impl Peer {
    fn taking_all() -> Peer {
        Peer { answers: vec![], then: Ok(usize::MAX), wire: vec![] }
    }

    fn blocked() -> Peer {
        Peer { answers: vec![], then: Err(ConnError::WouldBlock), wire: vec![] }
    }

    fn answering(answers: Vec<Result<usize, ConnError>>, then: Result<usize, ConnError>) -> Peer {
        Peer { answers, then, wire: vec![] }
    }

    fn write(&mut self, bytes: &[u8]) -> Result<usize, ConnError> {
        let answer = if self.answers.is_empty() { self.then } else { self.answers.remove(0) };
        let n = answer?.min(bytes.len());
        self.wire.extend_from_slice(&bytes[..n]);
        Ok(n)
    }
}

fn send(c: &mut Client, peer: &mut Peer, data: &BufferData, now: u64) -> Result<(), ()> {
    let mut step = c.send_data(data, now);
    loop {
        match step {
            SendStep::Done(r) => return r,
            SendStep::More(s) => {
                let reply = peer.write(c.send_bytes(&s));
                step = c.continue_send(s, reply);
            }
        }
    }
}

fn flush(c: &mut Client, peer: &mut Peer, now: u64) -> Result<bool, ()> {
    let mut step = c.flush_buffer(now);
    loop {
        match step {
            FlushStep::Done(r) => return r,
            FlushStep::More(w) => {
                let reply = peer.write(c.buffer_bytes(&w));
                step = c.continue_flush(w, reply);
            }
        }
    }
}

fn frame(data: &[u8]) -> BufferData {
    BufferData::Frame { data: data.to_vec(), pts: 0 }
}

fn ogg() -> StreamConfig {
    StreamConfig {
        mount: "stream.ogg".to_string(),
        container: Container::Ogg,
        codec: Codec::Other,
        bitrate: None,
    }
}

#[test]
fn new_client_is_as_told() {
    let c = Client::new(Agent::MPV, None, 17);
    assert_eq!(c.agent(), Agent::MPV);
    assert_eq!(c.last_action(), 17);
}

#[test]
fn plain_clients_get_the_bytes_as_they_are() {
    let mut c = Client::new(Agent::NotChunked, None, 0);
    let mut peer = Peer::taking_all();
    assert_eq!(send(&mut c, &mut peer, &frame(b"abc"), 5), Ok(()));
    assert_eq!(send(&mut c, &mut peer, &BufferData::Trailer(b"de".to_vec()), 6), Ok(()));
    assert_eq!(peer.wire, b"abcde");
    assert_eq!(c.last_action(), 6);
}

#[test]
fn chunked_clients_get_chunks() {
    for agent in [Agent::MPV, Agent::MPD, Agent::Other] {
        let mut c = Client::new(agent, None, 0);
        let mut peer = Peer::taking_all();
        assert_eq!(send(&mut c, &mut peer, &frame(b"abc"), 5), Ok(()));
        assert_eq!(send(&mut c, &mut peer, &frame(b"de"), 5), Ok(()));
        assert_eq!(peer.wire, b"1000\r\nabcde");
    }
}

#[test]
fn websocket_clients_get_packets_in_messages() {
    let mut c = Client::new(Agent::WebSocket, None, 0);
    let mut peer = Peer::taking_all();
    let data = BufferData::Frame { data: vec![7], pts: 0x0102_0304_0506_0708 };
    assert_eq!(send(&mut c, &mut peer, &data, 5), Ok(()));
    assert_eq!(send(&mut c, &mut peer, &BufferData::Header(vec![9]), 5), Ok(()));
    let mut expected = vec![0x82, 0x7e, 0x10, 0x00];
    expected.extend([2, 0, 0, 0, 0, 0, 0, 0, 9, 1, 2, 3, 4, 5, 6, 7, 8, 7]);
    expected.extend([1, 0, 0, 0, 0, 0, 0, 0, 1, 9]);
    assert_eq!(peer.wire, expected);
}

#[test]
fn nothing_is_sent_for_an_empty_piece() {
    let mut c = Client::new(Agent::WebSocket, None, 3);
    assert!(matches!(c.send_data(&BufferData::Header(vec![]), 9), SendStep::Done(Ok(()))));
    assert_eq!(c.last_action(), 3);
}

#[test]
fn a_blocked_packet_is_kept() {
    let mut c = Client::new(Agent::NotChunked, None, 0);
    let mut peer = Peer::blocked();
    assert_eq!(send(&mut c, &mut peer, &frame(b"abc"), 1), Ok(()));
    assert_eq!(send(&mut c, &mut peer, &frame(b"def"), 2), Ok(()));
    assert_eq!(peer.wire, b"");
    assert_eq!(flush(&mut c, &mut peer, 3), Ok(false));
    assert_eq!(c.last_action(), 3);
    let kept = kept_bytes(&mut c);
    assert_eq!(kept, b"abcdef");
}

/// The buffer of a client that has no framing.
fn kept_bytes(c: &mut Client) -> Vec<u8> {
    match c.flush_buffer(0) {
        FlushStep::Done(_) => vec![],
        FlushStep::More(w) => {
            let mut kept = c.buffer_bytes(&w).to_vec();
            let n = kept.len();
            if let BufferStep::More(w) = c.write_buffer(w, Ok(n)) {
                kept.extend_from_slice(c.buffer_bytes(&w));
            }
            kept
        }
    }
}

#[test]
fn a_packet_cut_short_leaves_its_rest() {
    let mut c = Client::new(Agent::NotChunked, None, 0);
    let mut peer = Peer::answering(vec![Ok(4)], Err(ConnError::WouldBlock));
    assert_eq!(send(&mut c, &mut peer, &frame(b"0123456789"), 1), Ok(()));
    assert_eq!(peer.wire, b"0123");
    assert_eq!(kept_bytes(&mut c), b"456789");
}

#[test]
fn a_framed_packet_cut_short_leaves_its_rest() {
    for (agent, header) in [(Agent::Other, 6), (Agent::WebSocket, 4)] {
        let mut c = Client::new(agent, None, 0);
        let mut peer = Peer::answering(vec![Ok(header), Ok(4)], Err(ConnError::WouldBlock));
        let data = frame(b"0123456789");
        let packet = if agent == Agent::WebSocket { data.packet() } else { data.frame().to_vec() };
        assert_eq!(send(&mut c, &mut peer, &data, 1), Ok(()));
        assert_eq!(&peer.wire[header..], &packet[..4]);
        let w = write_of(&mut c);
        let next = c.buffer_bytes(&w);
        assert!(!next.is_empty() && packet[4..].starts_with(next));
    }
}

#[test]
fn what_is_taken_and_what_is_kept_is_all() {
    for taken in 1..10 {
        let mut c = Client::new(Agent::NotChunked, None, 0);
        let mut peer = Peer::answering(vec![Ok(taken)], Err(ConnError::WouldBlock));
        assert_eq!(send(&mut c, &mut peer, &frame(b"0123456789"), 1), Ok(()));
        assert_eq!(send(&mut c, &mut peer, &frame(b"abc"), 2), Ok(()));
        let mut all = peer.wire.clone();
        all.extend(kept_bytes(&mut c));
        assert_eq!(all, b"0123456789abc");
    }
}

#[test]
fn too_long_a_rest_loses_its_start() {
    let mut c = Client::new(Agent::NotChunked, None, 0);
    let all: Vec<u8> = (0..CLIENT_BUFFER_LEN + 30).map(|i| (i % 239) as u8).collect();
    let mut peer = Peer::answering(vec![Ok(10)], Err(ConnError::WouldBlock));
    assert_eq!(send(&mut c, &mut peer, &frame(&all), 1), Ok(()));
    assert_eq!(peer.wire, &all[..10]);
    assert_eq!(kept_bytes(&mut c), &all[30..]);
}

#[test]
fn a_header_cut_short_keeps_the_packet() {
    let mut c = Client::new(Agent::Other, None, 0);
    let mut peer = Peer::answering(vec![Ok(3)], Err(ConnError::WouldBlock));
    assert_eq!(send(&mut c, &mut peer, &frame(b"abc"), 1), Ok(()));
    assert_eq!(peer.wire, b"100");
    let w = match c.flush_buffer(2) {
        FlushStep::More(w) => w,
        FlushStep::Done(_) => panic!(),
    };
    assert_eq!(c.buffer_bytes(&w), b"0\r\n");
}

#[test]
fn sending_fails_when_the_connection_takes_nothing() {
    let mut c = Client::new(Agent::NotChunked, None, 0);
    let mut peer = Peer::answering(vec![], Ok(0));
    assert_eq!(send(&mut c, &mut peer, &frame(b"abc"), 1), Err(()));
    let mut c = Client::new(Agent::Other, None, 0);
    let mut peer = Peer::answering(vec![Ok(6)], Ok(0));
    assert_eq!(send(&mut c, &mut peer, &frame(b"abc"), 1), Err(()));
}

#[test]
fn sending_fails_when_the_connection_fails() {
    for agent in [Agent::NotChunked, Agent::WebSocket, Agent::Other] {
        let mut c = Client::new(agent, None, 0);
        let mut peer = Peer::answering(vec![], Err(ConnError::Other));
        assert_eq!(send(&mut c, &mut peer, &frame(b"abc"), 1), Err(()));
    }
}

#[test]
fn sending_fails_when_the_flush_before_it_fails() {
    let mut c = Client::new(Agent::NotChunked, None, 0);
    assert_eq!(send(&mut c, &mut Peer::blocked(), &frame(b"abc"), 1), Ok(()));
    let mut peer = Peer::answering(vec![], Err(ConnError::Other));
    assert_eq!(send(&mut c, &mut peer, &frame(b"def"), 2), Err(()));
    assert_eq!(peer.wire, b"");
}

#[test]
fn the_oldest_bytes_go_when_too_many_are_kept() {
    let mut c = Client::new(Agent::NotChunked, None, 0);
    let all: Vec<u8> = (0..CLIENT_BUFFER_LEN + 100).map(|i| (i % 253) as u8).collect();
    let mut peer = Peer::blocked();
    for part in all.chunks(1000) {
        assert_eq!(send(&mut c, &mut peer, &frame(part), 1), Ok(()));
    }
    assert_eq!(kept_bytes(&mut c), &all[100..]);
}

#[test]
fn one_packet_can_be_too_long_to_keep() {
    let mut c = Client::new(Agent::NotChunked, None, 0);
    let all: Vec<u8> = (0..3 * CLIENT_BUFFER_LEN).map(|i| (i % 251) as u8).collect();
    assert_eq!(send(&mut c, &mut Peer::blocked(), &frame(&all), 1), Ok(()));
    assert_eq!(kept_bytes(&mut c), &all[2 * CLIENT_BUFFER_LEN..]);
}

#[test]
fn an_empty_buffer_is_flushed_at_once() {
    let mut c = Client::new(Agent::Other, None, 0);
    assert!(matches!(c.flush_buffer(8), FlushStep::Done(Ok(true))));
    assert_eq!(c.last_action(), 8);
}

fn write_of(c: &mut Client) -> BufferWrite {
    match c.flush_buffer(0) {
        FlushStep::More(w) => w,
        FlushStep::Done(_) => panic!(),
    }
}

#[test]
fn writes_of_the_buffer_have_outcomes() {
    let mut c = Client::new(Agent::NotChunked, None, 0);
    assert_eq!(send(&mut c, &mut Peer::blocked(), &frame(b"abcdef"), 1), Ok(()));
    let w = write_of(&mut c);
    assert!(matches!(c.write_buffer(w, Ok(2)), BufferStep::Done(WR::Inc(2))));
    let w = write_of(&mut c);
    assert!(matches!(c.write_buffer(w, Ok(0)), BufferStep::Done(WR::Failed)));
    let w = write_of(&mut c);
    let blocked = c.write_buffer(w, Err(ConnError::WouldBlock));
    assert!(matches!(blocked, BufferStep::Done(WR::Blocked)));
    let w = write_of(&mut c);
    assert!(matches!(c.write_buffer(w, Err(ConnError::Other)), BufferStep::Done(WR::Failed)));
}

#[test]
fn a_flush_drops_what_was_taken() {
    let mut c = Client::new(Agent::NotChunked, None, 0);
    assert_eq!(send(&mut c, &mut Peer::blocked(), &frame(b"abcdef"), 1), Ok(()));
    let mut peer = Peer::answering(vec![Ok(2), Ok(1)], Err(ConnError::WouldBlock));
    assert_eq!(flush(&mut c, &mut peer, 2), Ok(false));
    assert_eq!(peer.wire, b"abc");
    assert_eq!(kept_bytes(&mut c), b"def");
}

#[test]
fn flushed_bytes_are_the_kept_bytes_in_order() {
    let mut c = Client::new(Agent::NotChunked, None, 0);
    let all: Vec<u8> = (0..40_000).map(|i| (i % 241) as u8).collect();
    for part in all.chunks(8000) {
        assert_eq!(send(&mut c, &mut Peer::blocked(), &frame(part), 1), Ok(()));
    }
    let mut peer = Peer::answering(vec![Ok(5), Ok(1000)], Ok(usize::MAX));
    let _ = flush(&mut c, &mut peer, 2);
    assert_eq!(peer.wire, &all[all.len() - CLIENT_BUFFER_LEN..]);
}

/// A client whose buffer lies in two parts, and the write of the second part.
fn client_in_its_tail() -> (Client, BufferWrite, usize) {
    for parts in 1..80 {
        let mut c = Client::new(Agent::NotChunked, None, 0);
        for _ in 0..parts {
            assert_eq!(send(&mut c, &mut Peer::blocked(), &frame(&[b'x'; 1000]), 1), Ok(()));
        }
        let w = write_of(&mut c);
        let head = c.buffer_bytes(&w).len();
        if let BufferStep::More(w) = c.write_buffer(w, Ok(head)) {
            if c.buffer_bytes(&w).len() > 1 {
                return (c, w, head);
            }
        }
    }
    panic!()
}

#[test]
fn the_second_part_of_the_buffer_has_outcomes() {
    let (mut c, w, _) = client_in_its_tail();
    let tail = c.buffer_bytes(&w).len();
    assert!(matches!(c.write_buffer(w, Ok(tail)), BufferStep::Done(WR::All)));
    let (mut c, w, head) = client_in_its_tail();
    assert!(matches!(c.write_buffer(w, Ok(1)), BufferStep::Done(WR::Inc(n)) if n == head + 1));
    let (mut c, w, head) = client_in_its_tail();
    let blocked = c.write_buffer(w, Err(ConnError::WouldBlock));
    assert!(matches!(blocked, BufferStep::Done(WR::Inc(n)) if n == head));
    let (mut c, w, _) = client_in_its_tail();
    assert!(matches!(c.write_buffer(w, Ok(0)), BufferStep::Done(WR::Failed)));
    let (mut c, w, _) = client_in_its_tail();
    assert!(matches!(c.write_buffer(w, Err(ConnError::Other)), BufferStep::Done(WR::Failed)));
}

#[test]
fn a_flush_of_two_parts_empties_the_buffer() {
    let (mut c, w, _) = client_in_its_tail();
    let tail = c.buffer_bytes(&w).len();
    assert!(matches!(c.continue_flush(w, Ok(tail)), FlushStep::Done(Ok(true))));
    assert!(matches!(c.flush_buffer(9), FlushStep::Done(Ok(true))));
}

#[test]
fn a_flush_of_one_part_fails_behind_it() {
    let mut c = Client::new(Agent::NotChunked, None, 0);
    assert_eq!(send(&mut c, &mut Peer::blocked(), &frame(b"abc"), 1), Ok(()));
    let w = write_of(&mut c);
    if c.buffer_bytes(&w).len() == 3 {
        let mut peer = Peer::taking_all();
        assert_eq!(flush(&mut c, &mut peer, 2), Err(()));
        assert_eq!(peer.wire, b"abc");
    }
}

#[test]
fn a_listener_that_keeps_up_hears_everything() {
    let mut c = Client::new(Agent::WebSocket, None, 0);
    let mut peer = Peer::taking_all();
    let mut packets = Vec::new();
    for i in 0..50usize {
        let data = frame(&vec![i as u8; 211 * (i % 7)]);
        if !data.frame().is_empty() {
            packets.extend(data.packet());
        }
        assert_eq!(send(&mut c, &mut peer, &data, i as u64), Ok(()));
    }
    let mut heard = Vec::new();
    let mut rest = &peer.wire[..];
    while !rest.is_empty() {
        assert_eq!(rest[..4], [0x82, 0x7e, 0x10, 0x00]);
        rest = &rest[4..];
        let n = rest.len().min(4096);
        heard.extend_from_slice(&rest[..n]);
        rest = &rest[n..];
    }
    assert_eq!(heard, packets);
}

#[test]
fn response_to_a_plain_client() {
    let c = Client::new(Agent::NotChunked, None, 0);
    let text = String::from_utf8(c.write_resp("kawa/1.0", "My Radio", &ogg())).unwrap();
    let expected = "HTTP/1.1 200 OK\r\n\
        server: kawa/1.0\r\n\
        content-type: audio/ogg\r\n\
        connection: close\r\n\
        cache-control: no-store, max-age=0, no-transform\r\n\
        accept-ranges: none\r\n\
        x-content-type-options: nosniff\r\n\
        x-audiocast-name: My Radio\r\n\
        x-audiocast-bitrate: 0\r\n\
        icy-name: My Radio\r\n\
        icy-br: 0\r\n\
        \r\n";
    assert_eq!(text, expected);
}

#[test]
fn response_to_a_chunked_client() {
    let config = StreamConfig { bitrate: Some(192000), ..ogg() };
    let c = Client::new(Agent::Other, None, 0);
    let text = String::from_utf8(c.write_resp("kawa/1.0", "R\u{e9}dio", &config)).unwrap();
    assert!(text.contains("\r\nx-audiocast-name: R\u{e9}dio\r\n"));
    assert!(text.contains("\r\nx-audiocast-bitrate: 192000\r\n"));
    assert!(text.contains("\r\nicy-br: 192000\r\n"));
    assert!(text.ends_with("\r\ntransfer-encoding: chunked\r\n\r\n"));
}

#[test]
fn response_to_a_websocket_client() {
    let c = Client::new(Agent::WebSocket, Some("abc=".to_string()), 0);
    let text = String::from_utf8(c.write_resp("kawa/1.0", "My Radio", &ogg())).unwrap();
    let expected = "HTTP/1.1 101 Switching Protocols\r\n\
        server: kawa/1.0\r\n\
        Upgrade: websocket\r\n\
        Connection: Upgrade\r\n\
        Sec-WebSocket-Accept: abc=\r\n\
        Sec-WebSocket-Version: 13\r\n\
        \r\n";
    assert_eq!(text, expected);
    let c = Client::new(Agent::WebSocket, None, 0);
    let text = String::from_utf8(c.write_resp("kawa/1.0", "My Radio", &ogg())).unwrap();
    assert!(text.contains("\r\nSec-WebSocket-Accept: \r\n"));
}

#[test]
fn a_response_has_one_empty_line() {
    for agent in [Agent::MPV, Agent::MPD, Agent::NotChunked, Agent::WebSocket, Agent::Other] {
        let c = Client::new(agent, Some("abc=".to_string()), 0);
        for name in ["My Radio", "R\u{e9}dio \u{8a0a}\u{10a0d}\u{30a}"] {
            let bytes = c.write_resp("kawa/1.0", name, &ogg());
            let ends: Vec<usize> = (0..bytes.len() - 3)
                .filter(|at| &bytes[*at..*at + 4] == b"\r\n\r\n")
                .collect();
            assert_eq!(ends, [bytes.len() - 4]);
        }
    }
}

#[test]
fn media_types() {
    let cases = [
        (Container::MP3, Codec::Other, "audio/mpeg;codecs=mp3"),
        (Container::FLAC, Codec::Other, "audio/flac"),
        (Container::AAC, Codec::Other, "audio/aac"),
        (Container::Ogg, Codec::Opus, "audio/ogg;codecs=opus"),
        (Container::Ogg, Codec::Other, "audio/ogg"),
        (Container::MP3, Codec::Opus, "audio/mpeg;codecs=mp3"),
    ];
    for (container, codec, expected) in cases {
        let config = StreamConfig { container, codec, ..ogg() };
        let c = Client::new(Agent::MPD, None, 0);
        let text = String::from_utf8(c.write_resp("s", "n", &config)).unwrap();
        assert!(text.contains(&format!("\r\ncontent-type: {}\r\n", expected)));
    }
}
