use kawa_broadcast::broadcaster::{Broadcaster, Job};
use kawa_broadcast::buffer::{Buffer, BufferData};
use kawa_broadcast::client::FlushStep;
use kawa_broadcast::config::{Codec, Config, Container, RadioConfig, StreamConfig};
use kawa_broadcast::delivery::DeliveryStep;
use kawa_broadcast::framing::ConnError;
use kawa_broadcast::joining::{Admission, JoinStep};
use kawa_broadcast::request::{Agent, Request};
use kawa_broadcast::stream::BACK_BUFFER_LEN;
use std::collections::HashMap;

const LISTENER: usize = 1;
const TIMER: usize = 2;
const CHANNEL: usize = 3;
const SECOND: u64 = 1_000_000_000;

fn stream(mount: &str) -> StreamConfig {
    StreamConfig {
        mount: mount.to_string(),
        container: Container::MP3,
        codec: Codec::Other,
        bitrate: Some(320),
    }
}

fn station() -> Broadcaster {
    let cfg = Config {
        radio: RadioConfig { port: 8000, name: "Station".to_string() },
        streams: vec![stream("/a.mp3"), stream("/b.mp3"), stream(".mp3")],
    };
    Broadcaster::new(&cfg, "kawa/1.0", LISTENER, TIMER, CHANNEL)
}

/// Connections by poll ID: what they answer, and what they took.
struct Net {
    answers: HashMap<usize, Result<usize, ConnError>>,
    wires: HashMap<usize, Vec<u8>>,
}

impl Net {
    fn new() -> Net {
        Net { answers: HashMap::new(), wires: HashMap::new() }
    }

    fn write(&mut self, id: usize, bytes: &[u8]) -> Result<usize, ConnError> {
        let answer = *self.answers.get(&id).unwrap_or(&Ok(usize::MAX));
        let n = answer?.min(bytes.len());
        self.wires.entry(id).or_default().extend_from_slice(&bytes[..n]);
        Ok(n)
    }

    fn wire(&self, id: usize) -> Vec<u8> {
        self.wires.get(&id).cloned().unwrap_or_default()
    }
}

/// What a connection that sends `text` is told.
fn knock(b: &mut Broadcaster, id: usize, text: &str, now: u64) -> Admission {
    b.accept_client(id, now);
    assert_eq!(b.read(id, Ok(text.as_bytes())), None);
    let read = b.read(id, Err(ConnError::WouldBlock)).unwrap();
    b.process_incoming(id, now, read, now)
}

fn enter(b: &mut Broadcaster, net: &mut Net, id: usize, text: &str, now: u64) -> bool {
    let c = match knock(b, id, text, now) {
        Admission::Accepted(c) => c,
        _ => return false,
    };
    let head = b.response(&c);
    net.wires.entry(id).or_default().extend_from_slice(&head);
    let mut step = b.join(c, Ok(()), now);
    loop {
        match step {
            JoinStep::Joined => return true,
            JoinStep::Failed => return false,
            JoinStep::More(j) => {
                assert_eq!(b.joining_id(&j), id);
                let reply = net.write(id, b.join_bytes(&j));
                step = b.continue_join(j, reply, now);
            }
        }
    }
}

/// Broadcasts a piece, and gives the listeners that were lost.
fn broadcast(b: &mut Broadcaster, net: &mut Net, mount: usize, data: BufferData, now: u64) -> Vec<usize> {
    let mut lost = Vec::new();
    let mut step = b.process_buffer(Buffer::new(mount, data), now);
    while let DeliveryStep::More(d) = step {
        let id = b.delivery_target(&d);
        let reply = net.write(id, b.delivery_bytes(&d));
        let (next, gone) = b.deliver(d, reply, now);
        lost.extend(gone);
        step = next;
    }
    lost
}

fn frame(data: &[u8]) -> BufferData {
    BufferData::Frame { data: data.to_vec(), pts: 0 }
}

fn body(wire: &[u8]) -> Vec<u8> {
    let end = wire.windows(4).position(|w| w == b"\r\n\r\n").unwrap();
    wire[end + 4..].to_vec()
}

#[test]
fn notifications_become_jobs() {
    let mut b = station();
    assert_eq!(b.run(LISTENER), Job::Accept);
    assert_eq!(b.run(TIMER), Job::Reap);
    assert_eq!(b.run(CHANNEL), Job::Data);
    assert_eq!(b.run(7), Job::Unknown);
    b.accept_client(7, 0);
    assert_eq!(b.run(7), Job::Incoming);
    assert!(enter(&mut b, &mut Net::new(), 8, "GET /a.mp3 HTTP/1.1\r\n\r\n", 0));
    assert_eq!(b.run(8), Job::Client);
    b.remove_incoming(7);
    assert_eq!(b.run(7), Job::Unknown);
    b.remove_client(8);
    assert_eq!(b.run(8), Job::Unknown);
}

#[test]
fn paths_lead_to_the_first_mount_at_their_end() {
    let b = station();
    assert_eq!(b.mount_of("/a.mp3"), Some(0));
    assert_eq!(b.mount_of("/x/b.mp3"), Some(1));
    assert_eq!(b.mount_of("/c.mp3"), Some(2));
    assert_eq!(b.mount_of("/a.mp3/"), None);
    assert_eq!(b.mount_of(""), None);
}

#[test]
fn a_listener_joins_and_leaves() {
    let mut b = station();
    let mut net = Net::new();
    let text = "GET /b.mp3?x=1 HTTP/1.1\r\nUser-Agent: mpv\r\n\r\n";
    assert!(enter(&mut b, &mut net, 5, text, 0));
    let l = b.listener(5).unwrap();
    assert_eq!(l.mount, "/b.mp3");
    assert_eq!(l.path, "/b.mp3?x=1");
    assert_eq!(l.headers.len(), 1);
    assert_eq!((l.headers[0].name.as_str(), l.headers[0].value.as_str()), ("User-Agent", "mpv"));
    let head = String::from_utf8(net.wire(5)).unwrap();
    assert!(head.starts_with("HTTP/1.1 200 OK\r\nserver: kawa/1.0\r\n"));
    assert!(head.contains("\r\nicy-name: Station\r\n"));
    assert!(head.contains("\r\nicy-br: 320\r\n"));
    b.remove_client(5);
    assert!(b.listener(5).is_none());
    assert_eq!(broadcast(&mut b, &mut net, 1, frame(b"abc"), 0), []);
    assert_eq!(body(&net.wire(5)), b"");
}

#[test]
fn paths_are_resolved_as_urls() {
    let mut b = station();
    let mut net = Net::new();
    assert!(enter(&mut b, &mut net, 5, "GET /x/../a.mp3#top HTTP/1.1\r\n\r\n", 0));
    assert_eq!(b.listener(5).unwrap().mount, "/a.mp3");
    assert!(enter(&mut b, &mut net, 6, "GET http://other/b.mp3 HTTP/1.1\r\n\r\n", 0));
    assert_eq!(b.listener(6).unwrap().mount, "/b.mp3");
}

#[test]
fn an_unknown_path_is_refused() {
    let mut b = station();
    assert!(matches!(knock(&mut b, 5, "GET /a.ogg HTTP/1.1\r\n\r\n", 0), Admission::Unknown));
    assert_eq!(b.run(5), Job::Unknown);
}

#[test]
fn a_path_that_is_no_url_is_refused() {
    let mut b = station();
    assert!(matches!(knock(&mut b, 5, "GET http://[/ HTTP/1.1\r\n\r\n", 0), Admission::Refused));
    assert_eq!(b.run(5), Job::Unknown);
}

#[test]
fn a_bad_request_is_refused() {
    let mut b = station();
    assert!(matches!(knock(&mut b, 5, "\u{1}\r\n\r\n", 0), Admission::Refused));
    assert_eq!(b.run(5), Job::Unknown);
}

#[test]
fn a_connection_that_ends_is_refused() {
    let mut b = station();
    b.accept_client(5, 0);
    assert_eq!(b.room(5), 1024);
    assert_eq!(b.read(5, Ok(b"GET /a.mp3 HTTP/1.1\r\n\r\n")), None);
    assert_eq!(b.room(5), 1024 - 23);
    assert_eq!(b.read(5, Ok(b"")), Some(Err(())));
    assert!(matches!(b.process_incoming(5, 0, Err(()), 0), Admission::Refused));
    assert_eq!(b.run(5), Job::Unknown);
}

#[test]
fn a_request_can_come_in_parts() {
    let mut b = station();
    assert!(matches!(knock(&mut b, 5, "GET /a.mp3 HT", 0), Admission::Waiting));
    assert_eq!(b.run(5), Job::Incoming);
    assert_eq!(b.read(5, Ok(b"TP/1.1\r\n\r\n")), None);
    assert!(matches!(b.process_incoming(5, 1, Ok(()), 2), Admission::Accepted(_)));
}

#[test]
fn requests_are_placed_by_their_location() {
    let mut b = station();
    let request = || Request {
        path: "whatever".to_string(),
        agent: Agent::NotChunked,
        headers: vec![],
        accept: None,
    };
    assert!(matches!(b.place(5, request(), None, 0), Admission::Refused));
    assert!(matches!(b.place(5, request(), Some("/z".to_string()), 0), Admission::Unknown));
    let c = match b.place(5, request(), Some("/z/b.mp3".to_string()), 0) {
        Admission::Accepted(c) => c,
        _ => panic!(),
    };
    assert!(matches!(b.join(c, Ok(()), 0), JoinStep::Joined));
    assert_eq!(b.listener(5).unwrap().mount, "/b.mp3");
    assert_eq!(b.listener(5).unwrap().path, "whatever");
}

#[test]
fn a_client_that_cannot_be_answered_does_not_join() {
    let mut b = station();
    let c = match knock(&mut b, 5, "GET /a.mp3 HTTP/1.1\r\n\r\n", 0) {
        Admission::Accepted(c) => c,
        _ => panic!(),
    };
    assert!(matches!(b.join(c, Err(()), 0), JoinStep::Failed));
    assert_eq!(b.run(5), Job::Unknown);
    assert!(b.listener(5).is_none());
}

#[test]
fn a_client_that_fails_while_joining_does_not_join() {
    let mut b = station();
    let mut net = Net::new();
    broadcast(&mut b, &mut net, 0, frame(b"abc"), 0);
    net.answers.insert(5, Err(ConnError::Other));
    assert!(!enter(&mut b, &mut net, 5, "GET /a.mp3 HTTP/1.1\r\n\r\n", 0));
    assert_eq!(b.run(5), Job::Unknown);
    assert!(b.listener(5).is_none());
}

#[test]
fn newcomers_get_the_backlog() {
    let mut b = station();
    let mut net = Net::new();
    broadcast(&mut b, &mut net, 0, BufferData::Header(b"H1".to_vec()), 0);
    broadcast(&mut b, &mut net, 0, frame(b"x"), 0);
    broadcast(&mut b, &mut net, 0, frame(b""), 0);
    broadcast(&mut b, &mut net, 0, BufferData::InlineData(b"I".to_vec()), 0);
    broadcast(&mut b, &mut net, 0, BufferData::Header(b"H2".to_vec()), 0);
    broadcast(&mut b, &mut net, 0, frame(b"y"), 0);
    assert!(enter(&mut b, &mut net, 5, "GET /a.mp3 HTTP/1.1\r\n\r\n", 0));
    assert_eq!(body(&net.wire(5)), b"1000\r\nH2H1xIH2y");
}

#[test]
fn websocket_newcomers_get_inline_data_first() {
    let mut b = station();
    let mut net = Net::new();
    let text = "GET /a.mp3 HTTP/1.1\r\nUpgrade: websocket\r\n\
        Sec-WebSocket-Key: dGhlIHNhbXBsZSBub25jZQ==\r\n\r\n";
    assert!(enter(&mut b, &mut net, 5, text, 0));
    let wire = net.wire(5);
    assert_eq!(
        body(&wire),
        [0x82, 0x7e, 0x10, 0x00, 255, 0, 0, 0, 0, 0, 0, 0, 1, 1]
    );
    let head = String::from_utf8_lossy(&wire).into_owned();
    assert!(head.starts_with("HTTP/1.1 101 Switching Protocols\r\n"));
    assert!(head.contains("\r\nSec-WebSocket-Accept: s3pPLMBiTxaQ9kYGzzhZRbK+xOo=\r\n"));
}

#[test]
fn the_backlog_is_bounded() {
    let mut b = station();
    let mut net = Net::new();
    broadcast(&mut b, &mut net, 0, BufferData::Header(b"H".to_vec()), 0);
    for i in 0..BACK_BUFFER_LEN + 10 {
        broadcast(&mut b, &mut net, 0, frame(&[i as u8]), 0);
    }
    assert!(enter(&mut b, &mut net, 5, "GET /a.mp3 HTTP/1.1\r\n\r\n", 0));
    let mut expected = b"1000\r\nH".to_vec();
    expected.extend((10..BACK_BUFFER_LEN + 10).map(|i| i as u8));
    assert_eq!(body(&net.wire(5)), expected);
}

#[test]
fn audio_goes_to_the_listeners_of_the_mount() {
    let mut b = station();
    let mut net = Net::new();
    for (id, path) in [(5, "/a.mp3"), (6, "/b.mp3"), (7, "/a.mp3")] {
        let text = format!("GET {} HTTP/1.1\r\n\r\n", path);
        assert!(enter(&mut b, &mut net, id, &text, 0));
    }
    assert_eq!(broadcast(&mut b, &mut net, 0, frame(b"abc"), 0), []);
    assert_eq!(broadcast(&mut b, &mut net, 1, frame(b"de"), 0), []);
    assert_eq!(body(&net.wire(5)), b"1000\r\nabc");
    assert_eq!(body(&net.wire(6)), b"1000\r\nde");
    assert_eq!(body(&net.wire(7)), b"1000\r\nabc");
}

#[test]
fn only_some_players_get_more_than_audio() {
    let mut b = station();
    let mut net = Net::new();
    assert!(enter(&mut b, &mut net, 5, "GET /a.mp3 HTTP/1.1\r\nUser-Agent: mpv\r\n\r\n", 0));
    assert!(enter(&mut b, &mut net, 6, "GET /a.mp3 HTTP/1.1\r\nUser-Agent: mpd\r\n\r\n", 0));
    assert!(enter(&mut b, &mut net, 7, "GET /a.mp3 HTTP/1.1\r\n\r\n", 0));
    assert!(enter(&mut b, &mut net, 8, "GET /a.mp3 HTTP/1.1\r\nUpgrade: websocket\r\n\r\n", 0));
    broadcast(&mut b, &mut net, 0, BufferData::Trailer(b"T".to_vec()), 0);
    broadcast(&mut b, &mut net, 0, BufferData::Header(b"H".to_vec()), 0);
    assert_eq!(body(&net.wire(5)), b"");
    assert_eq!(body(&net.wire(6)), b"1000\r\nTH");
    assert_eq!(body(&net.wire(7)), b"");
    let mut expected = vec![0x82, 0x7e, 0x10, 0x00, 255, 0, 0, 0, 0, 0, 0, 0, 1, 1];
    expected.extend([3, 0, 0, 0, 0, 0, 0, 0, 1, b'T', 1, 0, 0, 0, 0, 0, 0, 0, 1, b'H']);
    assert_eq!(body(&net.wire(8)), expected);
}

#[test]
fn a_listener_that_fails_is_forgotten() {
    let mut b = station();
    let mut net = Net::new();
    for id in [5, 6, 7] {
        assert!(enter(&mut b, &mut net, id, "GET /a.mp3 HTTP/1.1\r\n\r\n", 0));
    }
    net.answers.insert(6, Err(ConnError::Other));
    assert_eq!(broadcast(&mut b, &mut net, 0, frame(b"abc"), 0), [6]);
    assert_eq!(b.run(6), Job::Unknown);
    assert!(b.listener(6).is_none());
    assert_eq!(broadcast(&mut b, &mut net, 0, frame(b"d"), 0), []);
    assert_eq!(body(&net.wire(5)), b"1000\r\nabcd");
    assert_eq!(body(&net.wire(6)), b"");
    assert_eq!(body(&net.wire(7)), b"1000\r\nabcd");
}

#[test]
fn a_broadcast_leaves_each_listener_what_it_did_not_take() {
    let mut b = station();
    let mut net = Net::new();
    for id in [5, 6, 7] {
        assert!(enter(&mut b, &mut net, id, "GET /a.mp3 HTTP/1.1\r\n\r\n", 0));
        assert_eq!(broadcast(&mut b, &mut net, 1, frame(b"other"), 0), []);
    }
    assert_eq!(broadcast(&mut b, &mut net, 0, frame(b"ab"), 0), []);
    net.answers.insert(6, Ok(1));
    net.answers.insert(7, Err(ConnError::Other));
    assert_eq!(broadcast(&mut b, &mut net, 0, frame(b"cdef"), 1), [7]);
    assert_eq!(body(&net.wire(5)), b"1000\r\nabcdef");
    assert_eq!(body(&net.wire(6)), b"1000\r\nabc");
    assert!(matches!(b.process_client(5, 2), FlushStep::Done(Ok(true))));
    match b.process_client(6, 2) {
        FlushStep::More(w) => {
            let next = b.client_bytes(6, &w);
            assert!(!next.is_empty() && b"def".starts_with(next));
        }
        FlushStep::Done(_) => panic!(),
    }
    assert_eq!(b.run(7), Job::Unknown);
}

#[test]
fn a_newcomer_keeps_what_it_did_not_take_of_the_backlog() {
    let mut b = station();
    let mut net = Net::new();
    broadcast(&mut b, &mut net, 0, frame(b"abc"), 0);
    broadcast(&mut b, &mut net, 0, frame(b"def"), 0);
    net.answers.insert(5, Err(ConnError::WouldBlock));
    assert!(enter(&mut b, &mut net, 5, "GET /a.mp3 HTTP/1.1\r\n\r\n", 0));
    assert_eq!(body(&net.wire(5)), b"");
    let w = match b.process_client(5, 1) {
        FlushStep::More(w) => w,
        FlushStep::Done(_) => panic!(),
    };
    let w = match b.continue_client(5, w, Ok(6)) {
        FlushStep::More(w) => w,
        FlushStep::Done(_) => panic!(),
    };
    let next = b.client_bytes(5, &w);
    assert!(!next.is_empty() && b"abcdef".starts_with(next));
}

#[test]
fn streams_keep_the_pieces_of_their_own_mount() {
    let mut b = station();
    let mut net = Net::new();
    for (mount, data) in [(0, b"a"), (1, b"b"), (0, b"c"), (2, b"d"), (1, b"e")] {
        assert_eq!(broadcast(&mut b, &mut net, mount, frame(data), 0), []);
    }
    for (id, path, pieces) in [(5, "/a.mp3", "ac"), (6, "/b.mp3", "be"), (7, "/c.mp3", "d")] {
        let text = format!("GET {} HTTP/1.1\r\n\r\n", path);
        assert!(enter(&mut b, &mut net, id, &text, 0));
        assert_eq!(body(&net.wire(id)), format!("1000\r\n{}", pieces).as_bytes());
    }
}

#[test]
fn an_empty_piece_is_kept_but_not_sent() {
    let mut b = station();
    let mut net = Net::new();
    assert!(enter(&mut b, &mut net, 5, "GET /a.mp3 HTTP/1.1\r\n\r\n", 0));
    assert!(matches!(b.process_buffer(Buffer::new(0, frame(b"")), 1), DeliveryStep::Done));
    assert_eq!(body(&net.wire(5)), b"");
}

#[test]
fn inactive_connections_are_reaped() {
    let mut b = station();
    let mut net = Net::new();
    b.accept_client(5, 0);
    b.accept_client(6, 1);
    assert!(enter(&mut b, &mut net, 7, "GET /a.mp3 HTTP/1.1\r\n\r\n", 0));
    assert!(enter(&mut b, &mut net, 8, "GET /b.mp3 HTTP/1.1\r\n\r\n", 1));
    assert_eq!(b.reap(10 * SECOND), (vec![], vec![]));
    assert_eq!(b.reap(10 * SECOND + 1), (vec![5], vec![7]));
    assert_eq!(b.run(5), Job::Unknown);
    assert_eq!(b.run(6), Job::Incoming);
    assert_eq!(b.run(7), Job::Unknown);
    assert_eq!(b.run(8), Job::Client);
    assert!(b.listener(7).is_none());
    assert_eq!(broadcast(&mut b, &mut net, 1, frame(b"x"), 15 * SECOND), []);
    assert_eq!(b.reap(20 * SECOND), (vec![6], vec![]));
    assert_eq!(b.reap(0), (vec![], vec![]));
}

#[test]
fn activity_puts_reaping_off() {
    let mut b = station();
    let mut net = Net::new();
    assert!(matches!(knock(&mut b, 5, "GET", 0), Admission::Waiting));
    assert!(enter(&mut b, &mut net, 6, "GET /a.mp3 HTTP/1.1\r\n\r\n", 0));
    assert!(matches!(b.process_incoming(5, 8 * SECOND, Ok(()), 9 * SECOND), Admission::Waiting));
    assert!(matches!(b.process_client(6, 8 * SECOND), FlushStep::Done(Ok(true))));
    assert_eq!(b.reap(18 * SECOND), (vec![], vec![]));
    assert_eq!(b.reap(18 * SECOND + 1), (vec![5], vec![6]));
}

#[test]
fn a_listener_that_is_behind_is_served_when_it_can_be() {
    let mut b = station();
    let mut net = Net::new();
    assert!(enter(&mut b, &mut net, 5, "GET /a.mp3 HTTP/1.1\r\n\r\n", 0));
    net.answers.insert(5, Err(ConnError::WouldBlock));
    assert_eq!(broadcast(&mut b, &mut net, 0, frame(b"abc"), 1), []);
    assert_eq!(broadcast(&mut b, &mut net, 0, frame(b"def"), 2), []);
    let w = match b.process_client(5, 3) {
        FlushStep::More(w) => w,
        FlushStep::Done(_) => panic!(),
    };
    assert_eq!(b.client_bytes(5, &w), b"1000\r\n");
    let w = match b.continue_client(5, w, Ok(6)) {
        FlushStep::More(w) => w,
        FlushStep::Done(_) => panic!(),
    };
    let n = b.client_bytes(5, &w).len();
    assert!(n > 0);
    assert!(b"abcdef".starts_with(b.client_bytes(5, &w)));
    let w = match b.continue_client(5, w, Ok(1)) {
        FlushStep::More(w) => w,
        FlushStep::Done(_) => panic!(),
    };
    assert!(b"bcdef".starts_with(b.client_bytes(5, &w)));
    let blocked = b.continue_client(5, w, Err(ConnError::WouldBlock));
    assert!(matches!(blocked, FlushStep::Done(Ok(false))));
    assert_eq!(b.run(5), Job::Client);
}

#[test]
fn a_listener_whose_flush_fails_is_forgotten() {
    let mut b = station();
    let mut net = Net::new();
    assert!(enter(&mut b, &mut net, 5, "GET /a.mp3 HTTP/1.1\r\n\r\n", 0));
    net.answers.insert(5, Err(ConnError::WouldBlock));
    assert_eq!(broadcast(&mut b, &mut net, 0, frame(b"abc"), 1), []);
    let w = match b.process_client(5, 2) {
        FlushStep::More(w) => w,
        FlushStep::Done(_) => panic!(),
    };
    assert!(matches!(b.continue_client(5, w, Err(ConnError::Other)), FlushStep::Done(Err(()))));
    assert_eq!(b.run(5), Job::Unknown);
    assert!(b.listener(5).is_none());
    assert_eq!(broadcast(&mut b, &mut net, 0, frame(b"def"), 3), []);
}
