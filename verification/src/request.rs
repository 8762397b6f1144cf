//! Connections that have not sent their whole request yet, and what a request asks for.

use vstd::prelude::*;
use crate::framing::ConnError;
use crate::outside;
use crate::outside::{base64_encode, from_utf8, parse_request, sha1, to_lowercase, SHA1_MAX};
use crate::text;
use crate::text::{same, starts_with};

verus! {

/// The most bytes that a request can have.
pub const REQUEST_LEN: usize = 1024;

/// The most headers that a request can have.
pub const REQUEST_HEADERS: usize = 1024;

/// What RFC 6455 appends to the key of a handshake.
pub const WEBSOCKET_GUID: &'static str = "258EAFA5-E914-47DA-95CA-C5AB0DC85B11";

/// The bytes of [`WEBSOCKET_GUID`].
pub const WEBSOCKET_GUID_LEN: usize = 36;

/// The kind of player at the other end, which decides how it is served.
#[derive(Clone, Copy, Debug, PartialEq, Eq, Structural)]
pub enum Agent {
    MPV,
    MPD,
    NotChunked,
    WebSocket,
    Other,
}

/// A header of a request.
#[derive(Debug)]
pub struct Header {
    pub name: String,
    pub value: String,
}

#[verifier::ext_equal]
pub struct HeaderView {
    pub name: Seq<char>,
    pub value: Seq<char>,
}

impl View for Header {
    type V = HeaderView;

    open spec fn view(&self) -> HeaderView {
        HeaderView { name: self.name@, value: self.value@ }
    }
}

/// The contents of headers.
pub open spec fn headers_view(headers: Seq<Header>) -> Seq<HeaderView> {
    headers.map_values(|h: Header| h@)
}

/// All headers are shown, in order, each with its name and value.
pub proof fn headers_are_shown_in_order(headers: Seq<Header>)
    ensures
        headers_view(headers).len() == headers.len(),
        forall|i: int|
            0 <= i < headers.len() ==> {
                &&& (#[trigger] headers_view(headers)[i]).name == headers[i].name@
                &&& headers_view(headers)[i].value == headers[i].value@
            },
{
}

/// A complete request.
#[derive(Debug)]
pub struct Request {
    pub path: String,
    pub agent: Agent,
    pub headers: Vec<Header>,
    /// The answer to the key of a WebSocket handshake.
    pub accept: Option<String>,
}

#[verifier::ext_equal]
pub struct RequestView {
    pub path: Seq<char>,
    pub agent: Agent,
    pub headers: Seq<HeaderView>,
    pub accept: Option<Seq<char>>,
}

/// The contents of text that may be missing.
pub open spec fn text_view(s: Option<String>) -> Option<Seq<char>> {
    match s {
        Some(s) => Some(s@),
        None => None,
    }
}

impl View for Request {
    type V = RequestView;

    open spec fn view(&self) -> RequestView {
        RequestView {
            path: self.path@,
            agent: self.agent,
            headers: headers_view(self.headers@),
            accept: text_view(self.accept),
        }
    }
}

/// The text of a header value; there is none if it is not UTF-8.
pub open spec fn value_text(value: Seq<u8>) -> Seq<char> {
    if vstd::utf8::valid_utf8(value) {
        vstd::utf8::decode_utf8(value)
    } else {
        Seq::empty()
    }
}

/// The headers of a request, without those that are empty.
pub open spec fn request_headers(raw: Seq<(Seq<char>, Seq<u8>)>) -> Seq<HeaderView>
    decreases raw.len(),
{
    if raw.len() == 0 {
        Seq::empty()
    } else {
        let (name, value) = raw.last();
        let before = request_headers(raw.drop_last());
        if name.len() == 0 && value.len() == 0 {
            before
        } else {
            before.push(HeaderView { name, value: value_text(value) })
        }
    }
}

/// The text of a header value is what the value encodes, and empty if it encodes none.
pub proof fn value_text_is_what_is_encoded(value: Seq<u8>, text: Seq<char>)
    ensures
        value_text(vstd::utf8::encode_utf8(text)) == text,
        !vstd::utf8::valid_utf8(value) ==> value_text(value).len() == 0,
        vstd::utf8::valid_utf8(value) ==> vstd::utf8::encode_utf8(value_text(value)) == value,
{
    vstd::utf8::encode_utf8_valid_utf8(text);
    vstd::utf8::encode_utf8_decode_utf8(text);
    if vstd::utf8::valid_utf8(value) {
        vstd::utf8::decode_utf8_encode_utf8(value);
    }
}

/// Each header is kept under its name with the text of its value, in order, except one that
/// has neither name nor value.
pub proof fn headers_are_kept_in_order(
    a: Seq<(Seq<char>, Seq<u8>)>,
    b: Seq<(Seq<char>, Seq<u8>)>,
    name: Seq<char>,
    value: Seq<u8>,
)
    ensures
        request_headers(a + b) == request_headers(a) + request_headers(b),
        name.len() + value.len() > 0 ==> request_headers(seq![(name, value)]) == seq![
            HeaderView { name, value: value_text(value) },
        ],
        name.len() + value.len() == 0 ==> request_headers(seq![(name, value)]).len() == 0,
    decreases b.len(),
{
    let one = seq![(name, value)];
    assert(one.drop_last() == Seq::<(Seq<char>, Seq<u8>)>::empty());
    reveal_with_fuel(request_headers, 2);
    if b.len() == 0 {
        assert(a + b == a);
    } else {
        headers_are_kept_in_order(a, b.drop_last(), name, value);
        assert((a + b).drop_last() == a + b.drop_last());
        assert((a + b).last() == b.last());
    }
    assert(request_headers(a + b) =~= request_headers(a) + request_headers(b));
    assert(name.len() + value.len() > 0 ==> request_headers(one) =~= seq![
        HeaderView { name, value: value_text(value) },
    ]);
}

/// The answer to the key of a WebSocket handshake: the SHA-1 digest of the key with the
/// fixed text behind it, in base 64.
pub open spec fn accept_key(key: Seq<char>) -> Seq<char> {
    outside::base64_text(
        outside::sha1_digest(
            vstd::utf8::encode_utf8(key) + vstd::utf8::encode_utf8(WEBSOCKET_GUID@),
        ),
    )
}

/// What is known of a client from its headers: the kind of player, and the answer to
/// its handshake.
#[verifier::ext_equal]
pub struct Traits {
    pub agent: Agent,
    pub accept: Option<Seq<char>>,
}

impl Traits {
    /// What a header adds; `lower` is its name in lower case.
    pub open spec fn with_header(self, lower: Seq<char>, value: Seq<char>) -> Traits {
        if lower == "user-agent"@ {
            if text::is_start("mpv"@, value) {
                Traits { agent: Agent::MPV, ..self }
            } else if text::is_start("mpd"@, value) || text::is_start(
                "Music Player Daemon"@,
                value,
            ) {
                Traits { agent: Agent::MPD, ..self }
            } else {
                self
            }
        } else if lower == "upgrade"@ && value == "websocket"@ {
            Traits { agent: Agent::WebSocket, ..self }
        } else if lower == "sec-websocket-key"@ {
            Traits { accept: Some(accept_key(value)), ..self }
        } else {
            self
        }
    }
}

/// What the headers say, later ones over earlier ones.
pub open spec fn traits_of(headers: Seq<HeaderView>) -> Traits
    decreases headers.len(),
{
    if headers.len() == 0 {
        Traits { agent: Agent::Other, accept: None }
    } else {
        traits_of(headers.drop_last()).with_header(
            outside::lowercase(headers.last().name),
            headers.last().value,
        )
    }
}

/// The header is the key of a WebSocket handshake.
pub open spec fn is_key(h: HeaderView) -> bool {
    outside::lowercase(h.name) == "sec-websocket-key"@
}

/// The kind of player that a header names, if it names one.
pub open spec fn player_of(h: HeaderView) -> Option<Agent> {
    if outside::lowercase(h.name) == "user-agent"@ && text::is_start("mpv"@, h.value) {
        Some(Agent::MPV)
    } else if outside::lowercase(h.name) == "user-agent"@ && text::is_start("mpd"@, h.value) {
        Some(Agent::MPD)
    } else if outside::lowercase(h.name) == "user-agent"@ && text::is_start(
        "Music Player Daemon"@,
        h.value,
    ) {
        Some(Agent::MPD)
    } else if outside::lowercase(h.name) == "upgrade"@ && h.value == "websocket"@ {
        Some(Agent::WebSocket)
    } else {
        None
    }
}

proof fn lemma_names_differ()
    ensures
        "user-agent"@ != "upgrade"@,
        "user-agent"@ != "sec-websocket-key"@,
        "upgrade"@ != "sec-websocket-key"@,
{
    reveal_strlit("user-agent");
    reveal_strlit("upgrade");
    reveal_strlit("sec-websocket-key");
    assert("user-agent"@.len() == 10);
    assert("upgrade"@.len() == 7);
    assert("sec-websocket-key"@.len() == 17);
}

/// The last key among the headers is answered, wherever it stands among the others; without
/// a key there is no answer.
pub proof fn last_key_is_answered(headers: Seq<HeaderView>)
    ensures
        forall|i: int|
            0 <= i < headers.len() && #[trigger] is_key(headers[i]) && (forall|j: int|
                i < j < headers.len() ==> !#[trigger] is_key(headers[j])) ==> traits_of(
                headers,
            ).accept == Some(
                outside::base64_text(
                    outside::sha1_digest(
                        vstd::utf8::encode_utf8(headers[i].value) + vstd::utf8::encode_utf8(
                            "258EAFA5-E914-47DA-95CA-C5AB0DC85B11"@,
                        ),
                    ),
                ),
            ),
        (forall|i: int| 0 <= i < headers.len() ==> !#[trigger] is_key(headers[i])) ==> traits_of(
            headers,
        ).accept is None,
    decreases headers.len(),
{
    lemma_names_differ();
    if headers.len() > 0 {
        let before = headers.drop_last();
        last_key_is_answered(before);
        assert(headers.last() == headers[headers.len() - 1]);
        assert forall|i: int| 0 <= i < before.len() implies #[trigger] before[i] == headers[i] by {}
        if !is_key(headers.last()) {
            assert(traits_of(headers).accept == traits_of(before).accept);
            if forall|i: int| 0 <= i < headers.len() ==> !#[trigger] is_key(headers[i]) {
                assert forall|i: int| 0 <= i < before.len() implies !#[trigger] is_key(
                    before[i],
                ) by {
                    assert(!is_key(headers[i]));
                }
            }
            assert forall|i: int|
                0 <= i < headers.len() && #[trigger] is_key(headers[i]) && (forall|j: int|
                    i < j < headers.len() ==> !#[trigger] is_key(headers[j])) implies traits_of(
                headers,
            ).accept == Some(
                outside::base64_text(
                    outside::sha1_digest(
                        vstd::utf8::encode_utf8(headers[i].value) + vstd::utf8::encode_utf8(
                            "258EAFA5-E914-47DA-95CA-C5AB0DC85B11"@,
                        ),
                    ),
                ),
            ) by {
                assert(is_key(before[i]));
                assert forall|j: int| i < j < before.len() implies !#[trigger] is_key(
                    before[j],
                ) by {
                    assert(!is_key(headers[j]));
                }
            }
        }
    }
}

/// The last header that names a kind of player decides it, whatever stands around it;
/// without one the kind is open.
pub proof fn last_named_player_counts(headers: Seq<HeaderView>)
    ensures
        forall|i: int|
            0 <= i < headers.len() && #[trigger] player_of(headers[i]) is Some && (forall|j: int|
                i < j < headers.len() ==> #[trigger] player_of(headers[j]) is None) ==> Some(
                traits_of(headers).agent,
            ) == player_of(headers[i]),
        (forall|i: int| 0 <= i < headers.len() ==> #[trigger] player_of(headers[i]) is None)
            ==> traits_of(headers).agent == Agent::Other,
    decreases headers.len(),
{
    lemma_names_differ();
    if headers.len() > 0 {
        let before = headers.drop_last();
        last_named_player_counts(before);
        assert(headers.last() == headers[headers.len() - 1]);
        if player_of(headers.last()) is None {
            assert(traits_of(headers).agent == traits_of(before).agent);
            if forall|i: int|
                0 <= i < headers.len() ==> #[trigger] player_of(headers[i]) is None {
                assert forall|i: int| 0 <= i < before.len() implies #[trigger] player_of(
                    before[i],
                ) is None by {
                    assert(player_of(headers[i]) is None);
                }
            }
            assert forall|i: int|
                0 <= i < headers.len() && #[trigger] player_of(headers[i]) is Some && (forall|
                    j: int,
                |
                    i < j < headers.len() ==> #[trigger] player_of(headers[j]) is None)
                implies Some(traits_of(headers).agent) == player_of(headers[i]) by {
                assert(player_of(before[i]) is Some);
                assert forall|j: int| i < j < before.len() implies #[trigger] player_of(
                    before[j],
                ) is None by {
                    assert(player_of(headers[j]) is None);
                }
            }
        }
    }
}

/// The case of the letters of a header's name does not matter.
pub proof fn header_names_ignore_case(
    before: Seq<HeaderView>,
    a: Seq<char>,
    b: Seq<char>,
    value: Seq<char>,
)
    requires
        vstd::utf8::is_ascii_chars(a),
        vstd::utf8::is_ascii_chars(b),
        a.len() == b.len(),
        forall|i: int|
            0 <= i < a.len() ==> outside::ascii_lowercase(#[trigger] a[i])
                == outside::ascii_lowercase(b[i]),
    ensures
        traits_of(before.push(HeaderView { name: a, value })) == traits_of(
            before.push(HeaderView { name: b, value }),
        ),
{
    assert(outside::lowercase(a) == outside::lowercase(b));
    assert(before.push(HeaderView { name: a, value }).drop_last() == before);
    assert(before.push(HeaderView { name: b, value }).drop_last() == before);
}

/// A header that names the kind of player overrules the headers before it, whatever they
/// said.
pub proof fn later_headers_overrule(before: Seq<HeaderView>, value: Seq<char>)
    ensures
        ({
            let agent = |name: Seq<char>| traits_of(before.push(HeaderView { name, value })).agent;
            &&& value == "websocket"@ ==> agent("Upgrade"@) == Agent::WebSocket
            &&& text::is_start("mpv"@, value) ==> agent("User-Agent"@) == Agent::MPV
            &&& text::is_start("Music Player Daemon"@, value) ==> agent("User-Agent"@)
                == Agent::MPD
        }),
{
    reveal_strlit("Upgrade");
    reveal_strlit("upgrade");
    reveal_strlit("User-Agent");
    reveal_strlit("user-agent");
    reveal_strlit("mpv");
    reveal_strlit("Music Player Daemon");
    assert(before.push(HeaderView { name: "Upgrade"@, value }).drop_last() == before);
    assert(before.push(HeaderView { name: "User-Agent"@, value }).drop_last() == before);
    assert(outside::lowercase("Upgrade"@) == "upgrade"@);
    assert(outside::lowercase("User-Agent"@) == "user-agent"@);
    assert("upgrade"@ != "user-agent"@);
    if text::is_start("Music Player Daemon"@, value) {
        assert(value.take("Music Player Daemon"@.len() as int)[0] == 'M');
        assert(!text::is_start("mpv"@, value)) by {
            assert(value.take("mpv"@.len() as int)[0] != 'm');
        }
    }
}

/// The request with this path and these headers.
pub open spec fn request_of(path: Seq<char>, raw: Seq<(Seq<char>, Seq<u8>)>) -> RequestView {
    let headers = request_headers(raw);
    let t = traits_of(headers);
    RequestView { path, agent: t.agent, headers, accept: t.accept }
}

/// Answers the key of a WebSocket handshake.
pub fn accept_for(key: &str) -> (r: String)
    requires
        vstd::utf8::encode_utf8(key@).len() <= SHA1_MAX - WEBSOCKET_GUID_LEN,
    ensures
        r@ == accept_key(key@),
{
    let mut text: Vec<u8> = vstd::slice::slice_to_vec(key.as_bytes());
    proof {
        reveal_strlit("258EAFA5-E914-47DA-95CA-C5AB0DC85B11");
        vstd::utf8::is_ascii_chars_encode_utf8(WEBSOCKET_GUID@);
    }
    text.extend_from_slice(WEBSOCKET_GUID.as_bytes());
    assert(text@ == vstd::utf8::encode_utf8(key@) + vstd::utf8::encode_utf8(WEBSOCKET_GUID@));
    let digest = sha1(text.as_slice());
    base64_encode(digest.as_slice())
}

/// Takes in a header: `lower` is its name in lower case.
pub fn note_header(agent: Agent, accept: Option<String>, lower: &str, value: &str) -> (r: (
    Agent,
    Option<String>,
))
    requires
        vstd::utf8::encode_utf8(value@).len() <= SHA1_MAX - WEBSOCKET_GUID_LEN,
    ensures
        (Traits { agent: r.0, accept: text_view(r.1) }) == (Traits {
            agent,
            accept: text_view(accept),
        }).with_header(lower@, value@),
{
    if same(lower, "user-agent") {
        if starts_with(value, "mpv") {
            (Agent::MPV, accept)
        } else if starts_with(value, "mpd") || starts_with(value, "Music Player Daemon") {
            (Agent::MPD, accept)
        } else {
            (agent, accept)
        }
    } else if same(lower, "upgrade") && same(value, "websocket") {
        (Agent::WebSocket, accept)
    } else if same(lower, "sec-websocket-key") {
        (agent, Some(accept_for(value)))
    } else {
        (agent, accept)
    }
}

impl Request {
    /// The request with this path and these headers, each a name and a value.
    pub fn new(path: String, raw: &Vec<(String, Vec<u8>)>) -> (r: Request)
        requires
            forall|i: int|
                0 <= i < raw@.len() ==> (#[trigger] raw@[i]).1@.len() <= SHA1_MAX - WEBSOCKET_GUID_LEN,
        ensures
            r@ == request_of(path@, outside::head_view((None, *raw)).1),
    {
        let ghost all = outside::head_view((None, *raw)).1;
        let mut headers: Vec<Header> = Vec::new();
        let mut agent = Agent::Other;
        let mut accept: Option<String> = None;
        let mut i: usize = 0;
        while i < raw.len()
            invariant
                i <= raw@.len(),
                all == outside::head_view((None, *raw)).1,
                forall|i: int|
                    0 <= i < raw@.len() ==> (#[trigger] raw@[i]).1@.len() <= SHA1_MAX - WEBSOCKET_GUID_LEN,
                headers_view(headers@) == request_headers(all.take(i as int)),
                (Traits { agent, accept: text_view(accept) }) == traits_of(headers_view(headers@)),
            decreases raw@.len() - i,
        {
            let ghost next = all.take(i + 1);
            let ghost seen = headers_view(headers@);
            assert(next.drop_last() == all.take(i as int));
            assert(next.last() == (raw@[i as int].0@, raw@[i as int].1@));
            let name = &raw[i].0;
            let bytes = &raw[i].1;
            if !(name.as_str().is_empty() && bytes.len() == 0) {
                let value: String = match from_utf8(
                    vstd::slice::slice_to_vec(bytes.as_slice()),
                ) {
                    Some(s) => s,
                    None => String::new(),
                };
                proof {
                    if vstd::utf8::valid_utf8(bytes@) {
                        vstd::utf8::decode_utf8_encode_utf8(bytes@);
                    }
                }
                let lower = to_lowercase(name.as_str());
                let noted = note_header(agent, accept, lower.as_str(), value.as_str());
                agent = noted.0;
                accept = noted.1;
                headers.push(Header { name: name.clone(), value });
                assert(headers_view(headers@) == seen.push(headers@.last()@));
                assert(headers_view(headers@).drop_last() == seen);
            }
            i = i + 1;
        }
        assert(all.take(all.len() as int) == all);
        Request { path, agent, headers, accept }
    }
}

/// The contents of the outcome of a parse.
pub open spec fn outcome_view(r: Result<Option<Request>, ()>) -> Result<Option<RequestView>, ()> {
    match r {
        Ok(Some(req)) => Ok(Some(req@)),
        Ok(None) => Ok(None),
        Err(()) => Err(()),
    }
}

/// The outcome that the parsed head of a request has.
pub open spec fn outcome_of(
    parsed: Result<Option<(Option<Seq<char>>, Seq<(Seq<char>, Seq<u8>)>)>, ()>,
) -> Result<Option<RequestView>, ()> {
    match parsed {
        Ok(Some((Some(path), raw))) => Ok(Some(request_of(path, raw))),
        Ok(Some((None, _))) => Err(()),
        Ok(None) => Ok(None),
        Err(_) => Err(()),
    }
}

/// A head that is complete and has a path is a request with that path and the headers that
/// were sent. One without a path is refused, like bytes that are no head; the start of a head
/// is waited with.
pub proof fn complete_heads_are_requests(
    path: Seq<char>,
    raw: Seq<(Seq<char>, Seq<u8>)>,
)
    ensures
        outcome_of(Ok(Some((Some(path), raw)))) matches Ok(Some(r)) && r.path == path && r.headers
            == request_headers(raw) && r.agent == traits_of(r.headers).agent && r.accept
            == traits_of(r.headers).accept,
        outcome_of(Ok(Some((None, raw)))) is Err,
        outcome_of(Ok(None)) == Ok::<Option<RequestView>, ()>(None),
        outcome_of(Err(())) is Err,
{
}

/// A connection that has not sent its whole request yet.
#[derive(Debug)]
pub struct Incoming {
    last_action: u64,
    buf: Vec<u8>,
}

#[verifier::ext_equal]
pub struct IncomingView {
    /// When the connection was last heard of, in nanoseconds.
    pub last_action: u64,
    /// What it sent.
    pub buf: Seq<u8>,
}

impl View for Incoming {
    type V = IncomingView;

    closed spec fn view(&self) -> IncomingView {
        IncomingView { last_action: self.last_action, buf: self.buf@ }
    }
}

impl IncomingView {
    pub open spec fn wf(self) -> bool {
        self.buf.len() <= REQUEST_LEN
    }

    /// What a read does: bytes are appended and another read is due; the end of the
    /// input, which a full buffer looks like, and errors end the connection; when
    /// nothing more is there for now, reading is over.
    pub open spec fn after_read(self, got: Result<Seq<u8>, ConnError>) -> (
        IncomingView,
        Option<Result<(), ()>>,
    ) {
        match got {
            Ok(bytes) => if bytes.len() == 0 {
                (self, Some(Err(())))
            } else {
                (IncomingView { buf: self.buf + bytes, ..self }, None)
            },
            Err(ConnError::WouldBlock) => (self, Some(Ok(()))),
            Err(ConnError::Other) => (self, Some(Err(()))),
        }
    }
}

/// What a read gives is put behind what was there, and reading goes on. Reading is over when
/// there is nothing more for now, and has failed at the end of the input and on errors; what
/// was read stays.
pub proof fn reads_are_put_together(inc: IncomingView, bytes: Seq<u8>)
    ensures
        bytes.len() > 0 ==> inc.after_read(Ok(bytes)) == (
            IncomingView { last_action: inc.last_action, buf: inc.buf + bytes },
            None::<Result<(), ()>>,
        ),
        bytes.len() == 0 ==> inc.after_read(Ok(bytes)) == (inc, Some(Err::<(), ()>(()))),
        inc.after_read(Err(ConnError::WouldBlock)) == (inc, Some(Ok::<(), ()>(()))),
        inc.after_read(Err(ConnError::Other)) == (inc, Some(Err::<(), ()>(()))),
{
}

impl Incoming {
    pub open spec fn wf(&self) -> bool {
        self@.wf()
    }

    /// A connection that was made at `now`.
    pub fn new(now: u64) -> (r: Incoming)
        ensures
            r@ == (IncomingView { last_action: now, buf: Seq::empty() }),
            r.wf(),
    {
        let r = Incoming { last_action: now, buf: Vec::new() };
        assert(r@.buf == Seq::<u8>::empty());
        r
    }

    /// When the connection was last heard of.
    pub fn last_action(&self) -> (r: u64)
        ensures
            r == self@.last_action,
    {
        self.last_action
    }

    /// The most bytes that the next read can take.
    pub fn room(&self) -> (r: usize)
        requires
            self.wf(),
        ensures
            r == REQUEST_LEN - self@.buf.len(),
    {
        REQUEST_LEN - self.buf.len()
    }

    /// Takes in what a read gave. There is no result as long as another read is due.
    pub fn read(&mut self, got: Result<&[u8], ConnError>) -> (r: Option<Result<(), ()>>)
        requires
            old(self).wf(),
            got matches Ok(bytes) ==> bytes@.len() <= REQUEST_LEN - old(self)@.buf.len(),
        ensures
            (final(self)@, r) == old(self)@.after_read(
                match got {
                    Ok(bytes) => Ok(bytes@),
                    Err(e) => Err(e),
                },
            ),
            final(self).wf(),
    {
        match got {
            Ok(bytes) => {
                if bytes.len() == 0 {
                    Some(Err(()))
                } else {
                    self.buf.extend_from_slice(bytes);
                    assert(self@.buf == old(self)@.buf + bytes@);
                    None
                }
            },
            Err(ConnError::WouldBlock) => Some(Ok(())),
            Err(ConnError::Other) => Some(Err(())),
        }
    }

    /// Looks for a request in what was read: `now` is when reading began and `read` how
    /// it ended.
    pub fn process(&mut self, now: u64, read: Result<(), ()>) -> (r: Result<Option<Request>, ()>)
        requires
            old(self).wf(),
        ensures
            final(self)@ == (IncomingView { last_action: now, ..old(self)@ }),
            outcome_view(r) == match read {
                Ok(_) => outcome_of(
                    outside::http_request(old(self)@.buf, REQUEST_HEADERS as nat),
                ),
                Err(_) => Err(()),
            },
    {
        self.last_action = now;
        if read.is_err() {
            return Err(());
        }
        match parse_request(self.buf.as_slice(), REQUEST_HEADERS) {
            Ok(Some((path, raw))) => {
                match path {
                    Some(path) => Ok(Some(Request::new(path, &raw))),
                    None => Err(()),
                }
            },
            Ok(None) => Ok(None),
            Err(_) => Err(()),
        }
    }
}

} // verus!
