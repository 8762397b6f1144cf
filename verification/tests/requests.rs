use kawa_broadcast::framing::ConnError;
use kawa_broadcast::request::{
    accept_for, note_header, Agent, Incoming, Request, REQUEST_LEN,
};

fn parse(bytes: &[u8]) -> Result<Option<Request>, ()> {
    let mut inc = Incoming::new(1);
    assert_eq!(inc.read(Ok(bytes)), None);
    let read = inc.read(Err(ConnError::WouldBlock)).unwrap();
    inc.process(2, read)
}

fn agent_of(headers: &str) -> Agent {
    let text = format!("GET /stream HTTP/1.1\r\n{}\r\n", headers);
    parse(text.as_bytes()).unwrap().unwrap().agent
}

#[test]
fn a_complete_request() {
    let req = parse(b"GET /a?b=c HTTP/1.1\r\nHost: localhost\r\nX-Empty:\r\n\r\n").unwrap().unwrap();
    assert_eq!(req.path, "/a?b=c");
    assert_eq!(req.agent, Agent::Other);
    assert_eq!(req.accept, None);
    let headers: Vec<(&str, &str)> =
        req.headers.iter().map(|h| (h.name.as_str(), h.value.as_str())).collect();
    assert_eq!(headers, [("Host", "localhost"), ("X-Empty", "")]);
}

#[test]
fn a_request_in_parts() {
    let mut inc = Incoming::new(1);
    assert_eq!(inc.room(), REQUEST_LEN);
    assert_eq!(inc.read(Ok(b"GET /stream HT")), None);
    assert_eq!(inc.room(), REQUEST_LEN - 14);
    assert_eq!(inc.read(Err(ConnError::WouldBlock)), Some(Ok(())));
    assert!(matches!(inc.process(5, Ok(())), Ok(None)));
    assert_eq!(inc.last_action(), 5);
    assert_eq!(inc.read(Ok(b"TP/1.1\r\n\r\n")), None);
    let req = inc.process(6, Ok(())).unwrap().unwrap();
    assert_eq!(req.path, "/stream");
    assert_eq!(inc.last_action(), 6);
}

#[test]
fn an_incomplete_request() {
    assert!(matches!(parse(b"GET /stream HTTP/1.1\r\nHost: x\r\n"), Ok(None)));
    assert!(matches!(parse(b"G"), Ok(None)));
}

#[test]
fn an_invalid_request() {
    assert!(parse(b"\x00\x01\x02\r\n\r\n").is_err());
    assert!(parse(b"GET /stream HTTP/9\r\n\r\n").is_err());
}

#[test]
fn reading_ends_with_the_input() {
    let mut inc = Incoming::new(1);
    assert_eq!(inc.read(Ok(b"GET /stream HTTP/1.1\r\n\r\n")), None);
    assert_eq!(inc.read(Ok(b"")), Some(Err(())));
    assert!(inc.process(2, Err(())).is_err());
    assert_eq!(inc.read(Err(ConnError::Other)), Some(Err(())));
}

#[test]
fn a_full_buffer_has_no_room() {
    let mut inc = Incoming::new(1);
    let mut text = b"GET /".to_vec();
    text.resize(REQUEST_LEN, b'a');
    assert_eq!(inc.read(Ok(&text)), None);
    assert_eq!(inc.room(), 0);
    assert_eq!(inc.read(Ok(b"")), Some(Err(())));
}

#[test]
fn players_by_user_agent() {
    assert_eq!(agent_of("User-Agent: mpv 0.32.0\r\n"), Agent::MPV);
    assert_eq!(agent_of("User-Agent: mpd\r\n"), Agent::MPD);
    assert_eq!(agent_of("User-Agent: Music Player Daemon 0.21\r\n"), Agent::MPD);
    assert_eq!(agent_of("User-Agent: Mozilla/5.0\r\n"), Agent::Other);
    assert_eq!(agent_of("User-Agent: MPV\r\n"), Agent::Other);
    assert_eq!(agent_of(""), Agent::Other);
}

#[test]
fn header_names_in_any_case() {
    assert_eq!(agent_of("USER-AGENT: mpv\r\n"), Agent::MPV);
    assert_eq!(agent_of("user-agent: mpv\r\n"), Agent::MPV);
    assert_eq!(agent_of("uSeR-aGeNt: mpd\r\n"), Agent::MPD);
    assert_eq!(agent_of("UPGRADE: websocket\r\n"), Agent::WebSocket);
    assert_eq!(agent_of("Upgrade: WebSocket\r\n"), Agent::Other);
}

#[test]
fn later_headers_win() {
    assert_eq!(agent_of("Upgrade: websocket\r\nUser-Agent: mpv\r\n"), Agent::MPV);
    assert_eq!(agent_of("User-Agent: mpv\r\nUpgrade: websocket\r\n"), Agent::WebSocket);
    assert_eq!(agent_of("User-Agent: mpv\r\nUser-Agent: curl\r\n"), Agent::MPV);
}

#[test]
fn the_handshake_of_the_protocol() {
    assert_eq!(accept_for("dGhlIHNhbXBsZSBub25jZQ=="), "s3pPLMBiTxaQ9kYGzzhZRbK+xOo=");
    let req = parse(
        b"GET /chat HTTP/1.1\r\nUpgrade: websocket\r\n\
          Sec-WebSocket-Key: dGhlIHNhbXBsZSBub25jZQ==\r\n\r\n",
    )
    .unwrap()
    .unwrap();
    assert_eq!(req.agent, Agent::WebSocket);
    assert_eq!(req.accept.as_deref(), Some("s3pPLMBiTxaQ9kYGzzhZRbK+xOo="));
}

#[test]
fn headers_are_noted_one_by_one() {
    let (agent, accept) = note_header(Agent::Other, None, "upgrade", "websocket");
    assert_eq!((agent, accept.clone()), (Agent::WebSocket, None));
    let (agent, accept) = note_header(agent, accept, "sec-websocket-key", "");
    assert_eq!(agent, Agent::WebSocket);
    assert_eq!(accept.as_deref(), Some("Kfh9QIsMVZcl6xEPYxPHzW8SZ8w="));
    let (agent, accept) = note_header(agent, accept, "host", "mpv");
    assert_eq!(agent, Agent::WebSocket);
    assert!(accept.is_some());
}

#[test]
fn a_value_that_is_not_text_is_empty() {
    let req = parse(b"GET / HTTP/1.1\r\nUser-Agent: mpv\xff\r\nX: \xc3\xa9\r\n\r\n").unwrap().unwrap();
    assert_eq!(req.agent, Agent::Other);
    assert_eq!(req.headers[0].value, "");
    assert_eq!(req.headers[1].value, "\u{e9}");
}

#[test]
fn header_names_beyond_ascii_have_a_lower_case_too() {
    let raw = vec![("SEC-WEBSOC\u{212a}ET-KEY".to_string(), b"".to_vec())];
    let req = Request::new("/p".to_string(), &raw);
    assert_eq!(req.accept.as_deref(), Some("Kfh9QIsMVZcl6xEPYxPHzW8SZ8w="));
}

#[test]
fn requests_from_parsed_headers() {
    let raw = vec![
        (String::new(), vec![]),
        ("A".to_string(), b"1".to_vec()),
        ("".to_string(), b"2".to_vec()),
        ("\u{c9}".to_string(), vec![]),
    ];
    let req = Request::new("/p".to_string(), &raw);
    let headers: Vec<(&str, &str)> =
        req.headers.iter().map(|h| (h.name.as_str(), h.value.as_str())).collect();
    assert_eq!(headers, [("A", "1"), ("", "2"), ("\u{c9}", "")]);
    assert_eq!(req.path, "/p");
}
