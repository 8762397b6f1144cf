//! The head of the response to a listener.

use vstd::prelude::*;
use vstd::string::StringExecFns;
use crate::config::{Codec, Container, StreamConfig, StreamConfigView};
use crate::request;
use crate::request::Agent;
use crate::text;
use crate::text::{format_decimal, join_lines, line};

verus! {

/// The media type of a stream.
pub open spec fn content_type(config: StreamConfigView) -> Seq<char> {
    match config.container {
        Container::MP3 => "audio/mpeg;codecs=mp3"@,
        Container::FLAC => "audio/flac"@,
        Container::AAC => "audio/aac"@,
        Container::Ogg => if config.codec == Codec::Opus {
            "audio/ogg;codecs=opus"@
        } else {
            "audio/ogg"@
        },
    }
}

/// A bit rate in decimal; an unknown one is 0.
pub open spec fn bitrate_text(bitrate: Option<u64>) -> Seq<char> {
    match bitrate {
        Some(rate) => text::decimal(rate as nat),
        None => "0"@,
    }
}

/// Whether an agent gets its stream in chunked transfer encoding.
pub open spec fn is_chunked(agent: Agent) -> bool {
    agent != Agent::NotChunked && agent != Agent::WebSocket
}

/// The lines that complete a WebSocket handshake.
pub open spec fn handshake_lines(accept: Option<Seq<char>>, server: Seq<char>) -> Seq<Seq<char>> {
    seq![
        "HTTP/1.1 101 Switching Protocols"@,
        "server: "@ + server,
        "Upgrade: websocket"@,
        "Connection: Upgrade"@,
        "Sec-WebSocket-Accept: "@ + match accept {
            Some(a) => a,
            None => ""@,
        },
        "Sec-WebSocket-Version: 13"@,
    ]
}

/// The lines that announce a stream to any other client.
pub open spec fn stream_lines(
    server: Seq<char>,
    name: Seq<char>,
    config: StreamConfigView,
) -> Seq<Seq<char>> {
    seq![
        "HTTP/1.1 200 OK"@,
        "server: "@ + server,
        "content-type: "@ + content_type(config),
        "connection: close"@,
        "cache-control: no-store, max-age=0, no-transform"@,
        "accept-ranges: none"@,
        "x-content-type-options: nosniff"@,
        "x-audiocast-name: "@ + name,
        "x-audiocast-bitrate: "@ + bitrate_text(config.bitrate),
        "icy-name: "@ + name,
        "icy-br: "@ + bitrate_text(config.bitrate),
    ]
}

/// The lines of the head of a response.
pub open spec fn response_lines(
    agent: Agent,
    accept: Option<Seq<char>>,
    server: Seq<char>,
    name: Seq<char>,
    config: StreamConfigView,
) -> Seq<Seq<char>> {
    if agent == Agent::WebSocket {
        handshake_lines(accept, server)
    } else if is_chunked(agent) {
        stream_lines(server, name, config).push("transfer-encoding: chunked"@)
    } else {
        stream_lines(server, name, config)
    }
}

/// The head of a response, with the empty line that ends it.
pub open spec fn response_text(
    agent: Agent,
    accept: Option<Seq<char>>,
    server: Seq<char>,
    name: Seq<char>,
    config: StreamConfigView,
) -> Seq<char> {
    text::joined(response_lines(agent, accept, server, name, config)) + "\r\n\r\n"@
}

fn content_type_of(config: &StreamConfig) -> (r: &'static str)
    ensures
        r@ == content_type(config@),
{
    match config.container {
        Container::MP3 => "audio/mpeg;codecs=mp3",
        Container::FLAC => "audio/flac",
        Container::AAC => "audio/aac",
        Container::Ogg => {
            if config.codec == Codec::Opus {
                "audio/ogg;codecs=opus"
            } else {
                "audio/ogg"
            }
        },
    }
}

fn handshake(accept: &Option<String>, server: &str) -> (r: Vec<String>)
    ensures
        text::lines_view(r@) == handshake_lines(request::text_view(*accept), server@),
{
    let accept: &str = match accept {
        Some(s) => s.as_str(),
        None => "",
    };
    let mut lines: Vec<String> = Vec::new();
    lines.push(String::from_str("HTTP/1.1 101 Switching Protocols"));
    lines.push(line("server: ", server));
    lines.push(String::from_str("Upgrade: websocket"));
    lines.push(String::from_str("Connection: Upgrade"));
    lines.push(line("Sec-WebSocket-Accept: ", accept));
    lines.push(String::from_str("Sec-WebSocket-Version: 13"));
    lines
}

fn announcement(server: &str, name: &str, config: &StreamConfig) -> (r: Vec<String>)
    ensures
        text::lines_view(r@) == stream_lines(server@, name@, config@),
{
    let rate: String = match config.bitrate {
        Some(rate) => format_decimal(rate),
        None => String::from_str("0"),
    };
    let mut lines: Vec<String> = Vec::new();
    lines.push(String::from_str("HTTP/1.1 200 OK"));
    lines.push(line("server: ", server));
    lines.push(line("content-type: ", content_type_of(config)));
    lines.push(String::from_str("connection: close"));
    lines.push(String::from_str("cache-control: no-store, max-age=0, no-transform"));
    lines.push(String::from_str("accept-ranges: none"));
    lines.push(String::from_str("x-content-type-options: nosniff"));
    lines.push(line("x-audiocast-name: ", name));
    lines.push(line("x-audiocast-bitrate: ", rate.as_str()));
    lines.push(line("icy-name: ", name));
    lines.push(line("icy-br: ", rate.as_str()));
    lines
}

/// The head of the response to a client.
pub fn response(
    agent: Agent,
    accept: &Option<String>,
    server: &str,
    name: &str,
    config: &StreamConfig,
) -> (r: Vec<u8>)
    ensures
        r@ == vstd::utf8::encode_utf8(
            response_text(agent, request::text_view(*accept), server@, name@, config@),
        ),
{
    let mut lines: Vec<String> = if agent == Agent::WebSocket {
        handshake(accept, server)
    } else {
        announcement(server, name, config)
    };
    if agent != Agent::NotChunked && agent != Agent::WebSocket {
        let ghost before = text::lines_view(lines@);
        lines.push(String::from_str("transfer-encoding: chunked"));
        assert(text::lines_view(lines@) == before.push("transfer-encoding: chunked"@));
    }
    let mut data = join_lines(&lines);
    data.append("\r\n\r\n");
    vstd::slice::slice_to_vec(data.as_str().as_bytes())
}

// ---- What a head says ----

/// A listener that does not use WebSocket is told, whatever its kind, that all is well, and
/// of the server, the format, the name and the bit rate of the stream; nothing but the
/// announcement of chunks depends on its kind.
pub proof fn stream_is_announced(
    agent: Agent,
    accept: Option<Seq<char>>,
    server: Seq<char>,
    name: Seq<char>,
    config: StreamConfigView,
)
    requires
        agent != Agent::WebSocket,
    ensures
        ({
            let lines = response_lines(agent, accept, server, name, config);
            let rate = match config.bitrate {
                Some(rate) => text::decimal(rate as nat),
                None => seq!['0'],
            };
            &&& lines.len() >= 11
            &&& lines[0] == "HTTP/1.1 200 OK"@
            &&& lines[1] == "server: "@ + server
            &&& config.container == Container::MP3 ==> lines[2]
                == "content-type: audio/mpeg;codecs=mp3"@
            &&& config.container == Container::FLAC ==> lines[2] == "content-type: audio/flac"@
            &&& config.container == Container::AAC ==> lines[2] == "content-type: audio/aac"@
            &&& config.container == Container::Ogg && config.codec == Codec::Opus ==> lines[2]
                == "content-type: audio/ogg;codecs=opus"@
            &&& config.container == Container::Ogg && config.codec != Codec::Opus ==> lines[2]
                == "content-type: audio/ogg"@
            &&& lines[3] == "connection: close"@
            &&& lines[4] == "cache-control: no-store, max-age=0, no-transform"@
            &&& lines[5] == "accept-ranges: none"@
            &&& lines[6] == "x-content-type-options: nosniff"@
            &&& lines[7] == "x-audiocast-name: "@ + name
            &&& lines[8] == "x-audiocast-bitrate: "@ + rate
            &&& lines[9] == "icy-name: "@ + name
            &&& lines[10] == "icy-br: "@ + rate
            &&& agent == Agent::NotChunked ==> lines.len() == 11
            &&& agent != Agent::NotChunked ==> lines.len() == 12 && lines[11]
                == "transfer-encoding: chunked"@
            &&& forall|other: Agent|
                other != Agent::WebSocket ==> lines.take(11) == #[trigger] response_lines(
                    other,
                    accept,
                    server,
                    name,
                    config,
                ).take(11)
        }),
{
    reveal_strlit("content-type: ");
    reveal_strlit("audio/mpeg;codecs=mp3");
    reveal_strlit("audio/flac");
    reveal_strlit("audio/aac");
    reveal_strlit("audio/ogg;codecs=opus");
    reveal_strlit("audio/ogg");
    reveal_strlit("content-type: audio/mpeg;codecs=mp3");
    reveal_strlit("content-type: audio/flac");
    reveal_strlit("content-type: audio/aac");
    reveal_strlit("content-type: audio/ogg;codecs=opus");
    reveal_strlit("content-type: audio/ogg");
    reveal_strlit("0");
    assert("content-type: "@ + "audio/mpeg;codecs=mp3"@ == "content-type: audio/mpeg;codecs=mp3"@);
    assert("content-type: "@ + "audio/flac"@ == "content-type: audio/flac"@);
    assert("content-type: "@ + "audio/aac"@ == "content-type: audio/aac"@);
    assert("content-type: "@ + "audio/ogg;codecs=opus"@ == "content-type: audio/ogg;codecs=opus"@);
    assert("content-type: "@ + "audio/ogg"@ == "content-type: audio/ogg"@);
    assert("0"@ == seq!['0']);
    let lines = response_lines(agent, accept, server, name, config);
    assert forall|other: Agent| other != Agent::WebSocket implies lines.take(11)
        == #[trigger] response_lines(other, accept, server, name, config).take(11) by {
        assert(lines.take(11) =~= response_lines(other, accept, server, name, config).take(11));
    }
}

/// A WebSocket listener is told that the protocols are switched, and gets the answer to its
/// key, if it sent one.
pub proof fn handshake_is_answered(
    accept: Option<Seq<char>>,
    server: Seq<char>,
    name: Seq<char>,
    config: StreamConfigView,
)
    ensures
        ({
            let lines = response_lines(Agent::WebSocket, accept, server, name, config);
            &&& lines.len() == 6
            &&& lines[0] == "HTTP/1.1 101 Switching Protocols"@
            &&& lines[1] == "server: "@ + server
            &&& lines[2] == "Upgrade: websocket"@
            &&& lines[3] == "Connection: Upgrade"@
            &&& accept matches Some(a) ==> lines[4] == "Sec-WebSocket-Accept: "@ + a
            &&& accept is None ==> lines[4] == "Sec-WebSocket-Accept: "@
            &&& lines[5] == "Sec-WebSocket-Version: 13"@
        }),
{
    reveal_strlit("");
    assert("Sec-WebSocket-Accept: "@ + ""@ == "Sec-WebSocket-Accept: "@);
}

/// The head is its lines, one behind the other, and an empty line at the end.
pub proof fn head_is_its_lines(
    agent: Agent,
    accept: Option<Seq<char>>,
    server: Seq<char>,
    name: Seq<char>,
    config: StreamConfigView,
)
    ensures
        response_text(agent, accept, server, name, config) == text::joined(
            response_lines(agent, accept, server, name, config),
        ) + seq!['\r', '\n', '\r', '\n'],
{
    reveal_strlit("\r\n\r\n");
    assert("\r\n\r\n"@ == seq!['\r', '\n', '\r', '\n']);
}

// ---- Line breaks ----

/// The text has no line break.
pub open spec fn unbroken(s: Seq<char>) -> bool {
    forall|i: int| 0 <= i < s.len() ==> #[trigger] s[i] != '\r' && s[i] != '\n'
}

/// Each line has something in it and no line break.
pub open spec fn all_unbroken(lines: Seq<Seq<char>>) -> bool {
    forall|i: int| 0 <= i < lines.len() ==> (#[trigger] lines[i]).len() > 0 && unbroken(lines[i])
}

proof fn lemma_decimal_unbroken(n: nat)
    ensures
        unbroken(text::decimal(n)),
    decreases n,
{
    if n >= 10 {
        lemma_decimal_unbroken(n / 10);
    }
}

/// A carriage return follows a line feed.
pub open spec fn breaks_again(s: Seq<char>, i: int) -> bool {
    s[i] == '\n' && s[i + 1] == '\r'
}

/// What is behind a line break within joined lines is not another line break.
#[verifier::spinoff_prover]
proof fn lemma_joined_breaks(lines: Seq<Seq<char>>)
    requires
        lines.len() > 0,
        all_unbroken(lines),
    ensures
        ({
            let s = text::joined(lines);
            &&& s.len() > 0
            &&& s.last() != '\r' && s.last() != '\n'
            &&& forall|i: int| 0 <= i < s.len() - 1 ==> !#[trigger] breaks_again(s, i)
        }),
    decreases lines.len(),
{
    reveal_strlit("\r\n");
    let s = text::joined(lines);
    let l = lines.last();
    assert(l == lines[lines.len() - 1]);
    assert(l.last() == l[l.len() - 1]);
    if lines.len() > 1 {
        let start = lines.drop_last();
        assert forall|i: int| 0 <= i < start.len() implies (#[trigger] start[i]).len() > 0
            && unbroken(start[i]) by {
            assert(start[i] == lines[i]);
        }
        lemma_joined_breaks(start);
        lemma_line_behind(text::joined(start), l);
    }
}

proof fn lemma_line_behind(p: Seq<char>, l: Seq<char>)
    requires
        p.len() > 0,
        p.last() != '\r' && p.last() != '\n',
        forall|i: int| 0 <= i < p.len() - 1 ==> !#[trigger] breaks_again(p, i),
        l.len() > 0,
        unbroken(l),
    ensures
        (p + "\r\n"@ + l).last() == l.last(),
        forall|i: int|
            0 <= i < (p + "\r\n"@ + l).len() - 1 ==> !#[trigger] breaks_again(
                p + "\r\n"@ + l,
                i,
            ),
{
    reveal_strlit("\r\n");
    let s = p + "\r\n"@ + l;
    assert forall|i: int| 0 <= i < s.len() - 1 implies !#[trigger] breaks_again(s, i) by {
        if i < p.len() - 1 {
            assert(!breaks_again(p, i));
        } else if i == p.len() - 1 {
            assert(s[i] == p.last());
        } else if i == p.len() {
            assert(s[i] == '\r');
        } else {
            assert(s[i + 1] == l[i + 1 - p.len() - 2]);
        }
    }
}

/// The lines of a response have no line breaks in them, if none come in from outside.
#[verifier::spinoff_prover]
proof fn lemma_lines_unbroken(
    agent: Agent,
    accept: Option<Seq<char>>,
    server: Seq<char>,
    name: Seq<char>,
    config: StreamConfigView,
)
    requires
        unbroken(server),
        unbroken(name),
        accept matches Some(a) ==> unbroken(a),
    ensures
        all_unbroken(response_lines(agent, accept, server, name, config)),
{
    reveal_strlit("HTTP/1.1 101 Switching Protocols");
    reveal_strlit("server: ");
    reveal_strlit("Upgrade: websocket");
    reveal_strlit("Connection: Upgrade");
    reveal_strlit("Sec-WebSocket-Accept: ");
    reveal_strlit("");
    reveal_strlit("Sec-WebSocket-Version: 13");
    reveal_strlit("HTTP/1.1 200 OK");
    reveal_strlit("content-type: ");
    reveal_strlit("audio/mpeg;codecs=mp3");
    reveal_strlit("audio/flac");
    reveal_strlit("audio/aac");
    reveal_strlit("audio/ogg;codecs=opus");
    reveal_strlit("audio/ogg");
    reveal_strlit("connection: close");
    reveal_strlit("cache-control: no-store, max-age=0, no-transform");
    reveal_strlit("accept-ranges: none");
    reveal_strlit("x-content-type-options: nosniff");
    reveal_strlit("x-audiocast-name: ");
    reveal_strlit("x-audiocast-bitrate: ");
    reveal_strlit("icy-name: ");
    reveal_strlit("icy-br: ");
    reveal_strlit("0");
    reveal_strlit("transfer-encoding: chunked");
    if let Some(rate) = config.bitrate {
        lemma_decimal_unbroken(rate as nat);
    }
    assert(unbroken(content_type(config)));
    assert(unbroken(bitrate_text(config.bitrate)));
}

/// A client gets one head: as long as the names that it is told have no line breaks in
/// them, the empty line that ends the head stands at its end and nowhere else.
pub proof fn head_ends_once(
    agent: Agent,
    accept: Option<Seq<char>>,
    server: Seq<char>,
    name: Seq<char>,
    config: StreamConfigView,
    at: int,
)
    requires
        unbroken(server),
        unbroken(name),
        accept matches Some(a) ==> unbroken(a),
        0 <= at <= response_text(agent, accept, server, name, config).len() - 4,
    ensures
        response_text(agent, accept, server, name, config).subrange(at, at + 4) == "\r\n\r\n"@
            <==> at == response_text(agent, accept, server, name, config).len() - 4,
{
    let lines = response_lines(agent, accept, server, name, config);
    let s = text::joined(lines);
    let head = response_text(agent, accept, server, name, config);
    reveal_strlit("\r\n\r\n");
    lemma_lines_unbroken(agent, accept, server, name, config);
    lemma_joined_breaks(lines);
    let part = head.subrange(at, at + 4);
    if at == head.len() - 4 {
        assert(part == "\r\n\r\n"@);
    } else if part == "\r\n\r\n"@ {
        assert(part[1] == '\n' && part[2] == '\r');
        assert(head[at + 1] == '\n' && head[at + 2] == '\r');
        if at + 2 < s.len() {
            assert(breaks_again(s, at + 1));
        } else {
            assert(head[at + 1] == s.last());
        }
    }
}

/// How a character is written in UTF-8, as far as line breaks go.
proof fn lemma_scalar_bytes(c: char)
    ensures
        ({
            let e = vstd::utf8::encode_scalar(c as u32);
            &&& e.len() > 0
            &&& (c as u32) < 0x80 ==> e.len() == 1 && e[0] as u32 == c as u32
            &&& (c as u32) == 10 ==> c == '\n'
            &&& (c as u32) == 13 ==> c == '\r'
            &&& (c as u32) >= 0x80 ==> forall|i: int| 0 <= i < e.len() ==> #[trigger] e[i] >= 0x80
        }),
{
    let u = c as u32;
    vstd::utf8::char_is_scalar(c);
    assert(u < 0x80 ==> (u & 0x7f) as u8 as u32 == u) by (bit_vector);
    assert(0x80u8 | (u & 0x3f) as u8 >= 0x80) by (bit_vector);
    assert(0x80u8 | ((u >> 6) & 0x3f) as u8 >= 0x80) by (bit_vector);
    assert(0x80u8 | ((u >> 12) & 0x3f) as u8 >= 0x80) by (bit_vector);
    assert(0xc0u8 | ((u >> 6) & 0x1f) as u8 >= 0x80) by (bit_vector);
    assert(0xe0u8 | ((u >> 12) & 0x0f) as u8 >= 0x80) by (bit_vector);
    assert(0xf0u8 | ((u >> 18) & 0x07) as u8 >= 0x80) by (bit_vector);
}

proof fn lemma_encode_concat(a: Seq<char>, b: Seq<char>)
    ensures
        vstd::utf8::encode_utf8(a + b) == vstd::utf8::encode_utf8(a) + vstd::utf8::encode_utf8(b),
    decreases a.len(),
{
    if a.len() == 0 {
        assert(a + b == b);
    } else {
        lemma_encode_concat(a.drop_first(), b);
        assert((a + b).drop_first() == a.drop_first() + b);
    }
}

/// Where a line feed and then a carriage return are among the bytes, they are in the text.
proof fn lemma_break_in_bytes(s: Seq<char>, at: int) -> (i: int)
    requires
        0 <= at < vstd::utf8::encode_utf8(s).len() - 1,
        vstd::utf8::encode_utf8(s)[at] == 10,
        vstd::utf8::encode_utf8(s)[at + 1] == 13,
    ensures
        0 <= i < s.len() - 1,
        s[i] == '\n',
        s[i + 1] == '\r',
        vstd::utf8::encode_utf8(s.take(i)).len() == at,
    decreases s.len(),
{
    let bytes = vstd::utf8::encode_utf8(s);
    let first = vstd::utf8::encode_scalar(s[0] as u32);
    let rest = vstd::utf8::encode_utf8(s.drop_first());
    lemma_scalar_bytes(s[0]);
    assert(bytes == first + rest);
    if at >= first.len() {
        assert(rest[at - first.len()] == 10 && rest[at + 1 - first.len()] == 13);
        let k = lemma_break_in_bytes(s.drop_first(), at - first.len());
        assert(s.take(k + 1).drop_first() == s.drop_first().take(k));
        k + 1
    } else {
        assert(bytes[at] == first[at]);
        assert(s[0] == '\n');
        assert(bytes[at + 1] == rest[0]);
        let next = vstd::utf8::encode_scalar(s[1] as u32);
        lemma_scalar_bytes(s[1]);
        assert(s.drop_first()[0] == s[1]);
        assert(rest[0] == next[0]);
        assert(s[1] == '\r');
        assert(s.take(0) == Seq::<char>::empty());
        0
    }
}

/// Of the bytes of a head, too, those of an empty line stand at the end and nowhere else,
/// whatever characters the names are made of.
pub proof fn head_bytes_end_once(
    agent: Agent,
    accept: Option<Seq<char>>,
    server: Seq<char>,
    name: Seq<char>,
    config: StreamConfigView,
    at: int,
)
    requires
        unbroken(server),
        unbroken(name),
        accept matches Some(a) ==> unbroken(a),
        0 <= at <= vstd::utf8::encode_utf8(
            response_text(agent, accept, server, name, config),
        ).len() - 4,
    ensures
        ({
            let bytes = vstd::utf8::encode_utf8(
                response_text(agent, accept, server, name, config),
            );
            bytes.subrange(at, at + 4) == seq![13u8, 10, 13, 10] <==> at == bytes.len() - 4
        }),
{
    let head = response_text(agent, accept, server, name, config);
    let s = text::joined(response_lines(agent, accept, server, name, config));
    let bytes = vstd::utf8::encode_utf8(head);
    let end = "\r\n\r\n"@;
    let crlf2 = seq![13u8, 10, 13, 10];
    reveal_strlit("\r\n\r\n");
    vstd::utf8::is_ascii_chars_encode_utf8(end);
    assert(vstd::utf8::encode_utf8(end) == crlf2);
    lemma_encode_concat(s, end);
    let part = bytes.subrange(at, at + 4);
    if at == bytes.len() - 4 {
        assert(part == crlf2);
    } else if part == crlf2 {
        assert(part[1] == 10 && part[2] == 13);
        let i = lemma_break_in_bytes(head, at + 1);
        lemma_lines_unbroken(agent, accept, server, name, config);
        lemma_joined_breaks(response_lines(agent, accept, server, name, config));
        if i + 1 < s.len() {
            assert(breaks_again(s, i));
        } else if i < s.len() {
            assert(head[i] == s.last());
        } else {
            assert(head[i] == end[i - s.len()] && head[i + 1] == end[i + 1 - s.len()]);
            assert(i == s.len() + 1);
            assert(head.take(i) == s + seq!['\r']);
            lemma_encode_concat(s, seq!['\r']);
            assert(vstd::utf8::is_ascii_chars(seq!['\r']));
            vstd::utf8::is_ascii_chars_encode_utf8(seq!['\r']);
        }
    }
}

/// The response announces chunked transfer encoding to exactly the clients that get it.
pub proof fn chunked_is_announced(
    agent: Agent,
    accept: Option<Seq<char>>,
    server: Seq<char>,
    name: Seq<char>,
    config: StreamConfigView,
)
    ensures
        response_lines(agent, accept, server, name, config).contains("transfer-encoding: chunked"@)
            <==> is_chunked(agent),
{
    let lines = response_lines(agent, accept, server, name, config);
    let it = "transfer-encoding: chunked"@;
    reveal_strlit("transfer-encoding: chunked");
    assert(it[0] == 't');
    if is_chunked(agent) {
        assert(lines.last() == it);
    } else {
        reveal_strlit("HTTP/1.1 101 Switching Protocols");
        reveal_strlit("server: ");
        reveal_strlit("Upgrade: websocket");
        reveal_strlit("Connection: Upgrade");
        reveal_strlit("Sec-WebSocket-Accept: ");
        reveal_strlit("Sec-WebSocket-Version: 13");
        reveal_strlit("HTTP/1.1 200 OK");
        reveal_strlit("content-type: ");
        reveal_strlit("connection: close");
        reveal_strlit("cache-control: no-store, max-age=0, no-transform");
        reveal_strlit("accept-ranges: none");
        reveal_strlit("x-content-type-options: nosniff");
        reveal_strlit("x-audiocast-name: ");
        reveal_strlit("x-audiocast-bitrate: ");
        reveal_strlit("icy-name: ");
        reveal_strlit("icy-br: ");
        assert forall|i: int| 0 <= i < lines.len() implies lines[i] != it by {
            assert(lines[i][0] != 't');
        }
    }
}

} // verus!
