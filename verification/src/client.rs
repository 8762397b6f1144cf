//! A listener: the bytes that its connection has yet to take, and how they are encoded.
//!
//! A connection takes as many bytes of a write as it likes. So an operation that writes
//! is a value: it names the bytes to write next, takes in the answer, and comes back
//! either as an operation that goes on or as its result.

use std::collections::VecDeque;
use vstd::prelude::*;
use vstd::slice::{slice_subrange, slice_to_vec};
use crate::buffer::{BufferData, Media};
use crate::chunker;
use crate::chunker::Chunker;
use crate::config::StreamConfig;
use crate::framing;
use crate::framing::{ConnError, FrameState, Framing, Progress};
use crate::outside::as_slices;
use crate::request;
use crate::request::Agent;
use crate::response;
use crate::websocket;
use crate::websocket::WebSocketChunker;

verus! {

/// The most bytes that are kept for a client whose connection does not take them.
pub const CLIENT_BUFFER_LEN: usize = 16384;

/// What became of an attempt to write out the buffer.
#[derive(Clone, Copy, Debug, PartialEq, Eq, Structural)]
pub enum WR {
    /// All of it was taken.
    All,
    /// So many bytes of it were taken.
    Inc(usize),
    /// The connection takes nothing at the moment.
    Blocked,
    /// The connection is of no use any more.
    Failed,
}

/// The last `n` elements of `s`, or all of it if there are fewer.
pub open spec fn keep_last<T>(s: Seq<T>, n: int) -> Seq<T> {
    if s.len() <= n {
        s
    } else {
        s.skip(s.len() - n)
    }
}

// ---- Operations ----

/// A write of the buffer, first of its head and then of its tail.
#[derive(Debug)]
pub struct BufferWrite {
    head: Vec<u8>,
    tail: Vec<u8>,
    in_tail: bool,
    written: usize,
}

#[verifier::ext_equal]
pub struct BufferWriteView {
    pub head: Seq<u8>,
    pub tail: Seq<u8>,
    /// The head was taken and the tail is being written.
    pub in_tail: bool,
    /// Bytes taken of the part that is being written.
    pub written: usize,
}

impl View for BufferWrite {
    type V = BufferWriteView;

    closed spec fn view(&self) -> BufferWriteView {
        BufferWriteView {
            head: self.head@,
            tail: self.tail@,
            in_tail: self.in_tail,
            written: self.written,
        }
    }
}

impl BufferWriteView {
    /// A write of `buffer`, of which the first `cut` bytes are the head.
    pub open spec fn start(buffer: Seq<u8>, cut: int) -> BufferWriteView {
        BufferWriteView {
            head: buffer.take(cut),
            tail: buffer.skip(cut),
            in_tail: false,
            written: 0,
        }
    }

    /// The part that is being written.
    pub open spec fn current(self) -> Seq<u8> {
        if self.in_tail {
            self.tail
        } else {
            self.head
        }
    }

    /// The write is one of the buffer of `c`. Without a framing, a write that is taken
    /// in part is over.
    pub open spec fn fits(self, c: ClientView) -> bool {
        &&& self.head + self.tail == c.buffer
        &&& self.written <= self.current().len()
        &&& c.framing() is None ==> self.written == 0
    }

    /// The bytes that are yet to be taken.
    pub open spec fn owed(self) -> Seq<u8> {
        if self.in_tail {
            self.tail.skip(self.written as int)
        } else {
            self.head.skip(self.written as int) + self.tail
        }
    }
}

/// A write of the buffer after an answer of the connection.
#[derive(Debug)]
pub enum BufferStep {
    More(BufferWrite),
    Done(WR),
}

#[verifier::ext_equal]
pub enum BufferStepView {
    More(BufferWriteView),
    Done(WR),
}

impl View for BufferStep {
    type V = BufferStepView;

    open spec fn view(&self) -> BufferStepView {
        match *self {
            BufferStep::More(w) => BufferStepView::More(w@),
            BufferStep::Done(r) => BufferStepView::Done(r),
        }
    }
}

/// A flush of the buffer after an answer of the connection. It ends with whether the
/// buffer is empty.
#[derive(Debug)]
pub enum FlushStep {
    More(BufferWrite),
    Done(Result<bool, ()>),
}

#[verifier::ext_equal]
pub enum FlushStepView {
    More(BufferWriteView),
    Done(Result<bool, ()>),
}

impl View for FlushStep {
    type V = FlushStepView;

    open spec fn view(&self) -> FlushStepView {
        match *self {
            FlushStep::More(w) => FlushStepView::More(w@),
            FlushStep::Done(r) => FlushStepView::Done(r),
        }
    }
}

/// The sending of a packet, after a flush of the buffer if there is something in it.
#[derive(Debug)]
pub struct Sending {
    packet: Vec<u8>,
    flush: Option<BufferWrite>,
    written: usize,
}

#[verifier::ext_equal]
pub struct SendingView {
    pub packet: Seq<u8>,
    /// The flush that comes first, until it is over.
    pub flush: Option<BufferWriteView>,
    /// Bytes taken of the packet.
    pub written: usize,
}

impl View for Sending {
    type V = SendingView;

    closed spec fn view(&self) -> SendingView {
        SendingView {
            packet: self.packet@,
            flush: match self.flush {
                Some(w) => Some(w@),
                None => None,
            },
            written: self.written,
        }
    }
}

impl SendingView {
    /// The sending is one to `c`.
    pub open spec fn fits(self, c: ClientView) -> bool {
        &&& 0 < self.packet.len() <= usize::MAX
        &&& self.written <= self.packet.len()
        &&& match self.flush {
            Some(w) => w.fits(c) && self.written == 0,
            None => c.buffer.len() == 0,
        }
        &&& c.framing() is None ==> self.written == 0
    }

    /// What is being written.
    pub open spec fn current(self) -> Seq<u8> {
        match self.flush {
            Some(w) => w.current(),
            None => self.packet,
        }
    }

    /// How much of it is taken.
    pub open spec fn position(self) -> usize {
        match self.flush {
            Some(w) => w.written,
            None => self.written,
        }
    }

    /// The bytes that are yet to be taken.
    pub open spec fn owed(self) -> Seq<u8> {
        match self.flush {
            Some(w) => w.owed() + self.packet,
            None => self.packet.skip(self.written as int),
        }
    }
}

/// The sending of a packet after an answer of the connection.
#[derive(Debug)]
pub enum SendStep {
    More(Sending),
    Done(Result<(), ()>),
}

#[verifier::ext_equal]
pub enum SendStepView {
    More(SendingView),
    Done(Result<(), ()>),
}

impl View for SendStep {
    type V = SendStepView;

    open spec fn view(&self) -> SendStepView {
        match *self {
            SendStep::More(s) => SendStepView::More(s@),
            SendStep::Done(r) => SendStepView::Done(r),
        }
    }
}

// ---- The client as a state machine ----

#[verifier::ext_equal]
pub struct ClientView {
    pub agent: Agent,
    /// Bytes that the connection has yet to take.
    pub buffer: Seq<u8>,
    /// When the client was last served, in nanoseconds.
    pub last_action: u64,
    /// The answer to its WebSocket handshake.
    pub accept: Option<Seq<char>>,
    pub chunked: FrameState,
    pub websocket: FrameState,
}

impl ClientView {
    pub open spec fn start(agent: Agent, accept: Option<Seq<char>>, now: u64) -> ClientView {
        ClientView {
            agent,
            buffer: Seq::empty(),
            last_action: now,
            accept,
            chunked: chunker::chunked().start(),
            websocket: websocket::websocket().start(),
        }
    }

    pub open spec fn wf(self) -> bool {
        &&& self.buffer.len() <= CLIENT_BUFFER_LEN
        &&& chunker::chunked().allows(self.chunked)
        &&& websocket::websocket().allows(self.websocket)
    }

    /// The framing of the stream, if it has one.
    pub open spec fn framing(self) -> Option<Framing> {
        match self.agent {
            Agent::NotChunked => None,
            Agent::WebSocket => Some(websocket::websocket()),
            _ => Some(chunker::chunked()),
        }
    }

    /// Where in its framing the stream stands.
    pub open spec fn frame_state(self) -> FrameState {
        if self.agent == Agent::WebSocket {
            self.websocket
        } else {
            self.chunked
        }
    }

    /// The bytes of the next write, when the first `written` bytes of `data` are taken.
    pub open spec fn request(self, data: Seq<u8>, written: int) -> Seq<u8> {
        match self.framing() {
            None => data.skip(written),
            Some(f) => f.request(self.frame_state(), data, written),
        }
    }

    /// The payload among the bytes of a write of which the connection took `n`.
    pub open spec fn taken(self, data: Seq<u8>, written: int, n: int) -> Seq<u8> {
        match self.framing() {
            None => data.subrange(written, written + n),
            Some(f) => f.taken(self.frame_state(), data, written, n),
        }
    }

    /// Client and progress after the connection answered a write.
    pub open spec fn encode(self, written: usize, reply: Result<usize, ConnError>) -> (
        ClientView,
        Progress,
    ) {
        match self.agent {
            Agent::NotChunked => (
                self,
                Progress::Done(
                    match reply {
                        Ok(n) => Ok(Some((written + n) as usize)),
                        Err(e) => Err(e),
                    },
                ),
            ),
            Agent::WebSocket => {
                let (st, p) = websocket::websocket().step(self.websocket, written, reply);
                (ClientView { websocket: st, ..self }, p)
            },
            _ => {
                let (st, p) = chunker::chunked().step(self.chunked, written, reply);
                (ClientView { chunked: st, ..self }, p)
            },
        }
    }

    /// What a write of the buffer comes to when its head is written.
    pub open spec fn head_outcome(
        w: BufferWriteView,
        r: Result<Option<usize>, ConnError>,
    ) -> BufferStepView {
        match r {
            Ok(Some(a)) => if a == 0 {
                BufferStepView::Done(WR::Failed)
            } else if a == w.head.len() {
                BufferStepView::More(BufferWriteView { in_tail: true, written: 0, ..w })
            } else {
                BufferStepView::Done(WR::Inc(a))
            },
            Ok(None) => BufferStepView::Done(WR::Inc(0)),
            Err(ConnError::WouldBlock) => BufferStepView::Done(WR::Blocked),
            Err(ConnError::Other) => BufferStepView::Done(WR::Failed),
        }
    }

    /// What a write of the buffer comes to when its tail is written.
    pub open spec fn tail_outcome(
        w: BufferWriteView,
        r: Result<Option<usize>, ConnError>,
    ) -> BufferStepView {
        match r {
            Ok(Some(a)) => if a == 0 {
                BufferStepView::Done(WR::Failed)
            } else if a == w.tail.len() {
                BufferStepView::Done(WR::All)
            } else {
                BufferStepView::Done(WR::Inc((a + w.head.len()) as usize))
            },
            Ok(None) => BufferStepView::Done(WR::Inc(w.head.len() as usize)),
            Err(ConnError::WouldBlock) => BufferStepView::Done(WR::Inc(w.head.len() as usize)),
            Err(ConnError::Other) => BufferStepView::Done(WR::Failed),
        }
    }

    /// A write of the buffer goes on with an answer.
    pub open spec fn after_write(self, w: BufferWriteView, reply: Result<usize, ConnError>) -> (
        ClientView,
        BufferStepView,
    ) {
        let (c, p) = self.encode(w.written, reply);
        (
            c,
            match p {
                Progress::More(n) => BufferStepView::More(BufferWriteView { written: n, ..w }),
                Progress::Done(r) => if w.in_tail {
                    ClientView::tail_outcome(w, r)
                } else {
                    ClientView::head_outcome(w, r)
                },
            },
        )
    }

    /// A flush begins; if it writes, the head of the buffer has `cut` bytes.
    pub open spec fn start_flush(self, now: u64, cut: int) -> (ClientView, FlushStepView) {
        (
            ClientView { last_action: now, ..self },
            if self.buffer.len() == 0 {
                FlushStepView::Done(Ok(true))
            } else {
                FlushStepView::More(BufferWriteView::start(self.buffer, cut))
            },
        )
    }

    /// A flush goes on with an answer; if it writes the buffer anew, the head has `cut`
    /// bytes.
    pub open spec fn after_flush(
        self,
        w: BufferWriteView,
        reply: Result<usize, ConnError>,
        cut: int,
    ) -> (ClientView, FlushStepView) {
        match self.after_write(w, reply) {
            (c, BufferStepView::More(next)) => (c, FlushStepView::More(next)),
            (c, BufferStepView::Done(WR::All)) => (
                ClientView { buffer: Seq::empty(), ..c },
                FlushStepView::Done(Ok(true)),
            ),
            (c, BufferStepView::Done(WR::Inc(a))) => {
                let left = c.buffer.skip(a as int);
                (
                    ClientView { buffer: left, ..c },
                    FlushStepView::More(BufferWriteView::start(left, cut)),
                )
            },
            (c, BufferStepView::Done(WR::Blocked)) => (c, FlushStepView::Done(Ok(false))),
            (c, BufferStepView::Done(WR::Failed)) => (c, FlushStepView::Done(Err(()))),
        }
    }

    /// The bytes that are sent for a piece of audio.
    pub open spec fn packet(self, m: Media) -> Seq<u8> {
        if self.agent == Agent::WebSocket {
            m.packet()
        } else {
            m.bytes()
        }
    }

    /// The client with bytes put aside for it; when there are too many, the oldest go.
    pub open spec fn queue(self, data: Seq<u8>) -> ClientView {
        ClientView { buffer: keep_last(self.buffer + data, CLIENT_BUFFER_LEN as int), ..self }
    }

    /// A sending begins.
    pub open spec fn start_send(self, m: Media, now: u64, cut: int) -> (ClientView, SendStepView) {
        if m.bytes().len() == 0 {
            (self, SendStepView::Done(Ok(())))
        } else {
            let (c, flush) = self.start_flush(now, cut);
            (
                c,
                SendStepView::More(
                    SendingView {
                        packet: self.packet(m),
                        flush: match flush {
                            FlushStepView::More(w) => Some(w),
                            FlushStepView::Done(_) => None,
                        },
                        written: 0,
                    },
                ),
            )
        }
    }

    /// The bytes of the next write of a sending.
    pub open spec fn send_request(self, s: SendingView) -> Seq<u8> {
        self.request(s.current(), s.position() as int)
    }

    /// A sending goes on with an answer.
    ///
    /// When the connection took only the start of the packet, the rest is put aside for
    /// it.
    pub open spec fn after_send(
        self,
        s: SendingView,
        reply: Result<usize, ConnError>,
        cut: int,
    ) -> (ClientView, SendStepView) {
        match s.flush {
            Some(w) => match self.after_flush(w, reply, cut) {
                (c, FlushStepView::More(next)) => (
                    c,
                    SendStepView::More(SendingView { flush: Some(next), ..s }),
                ),
                (c, FlushStepView::Done(Ok(true))) => (
                    c,
                    SendStepView::More(SendingView { flush: None, ..s }),
                ),
                (c, FlushStepView::Done(Ok(false))) => (
                    c.queue(s.packet),
                    SendStepView::Done(Ok(())),
                ),
                (c, FlushStepView::Done(Err(_))) => (c, SendStepView::Done(Err(()))),
            },
            None => match self.encode(s.written, reply) {
                (c, Progress::More(n)) => (
                    c,
                    SendStepView::More(SendingView { written: n, ..s }),
                ),
                (c, Progress::Done(Ok(Some(a)))) => if a == 0 {
                    (c, SendStepView::Done(Err(())))
                } else if a == s.packet.len() {
                    (c, SendStepView::Done(Ok(())))
                } else {
                    (c.queue(s.packet.skip(a as int)), SendStepView::Done(Ok(())))
                },
                (c, Progress::Done(Ok(None))) => (
                    c.queue(s.packet),
                    SendStepView::Done(Ok(())),
                ),
                (c, Progress::Done(Err(ConnError::WouldBlock))) => (
                    c.queue(s.packet),
                    SendStepView::Done(Ok(())),
                ),
                (c, Progress::Done(Err(ConnError::Other))) => (
                    c,
                    SendStepView::Done(Err(())),
                ),
            },
        }
    }
}

pub(crate) proof fn lemma_encode_bounds(
    c: ClientView,
    data: Seq<u8>,
    written: usize,
    reply: Result<usize, ConnError>,
)
    requires
        c.wf(),
        written <= data.len() <= usize::MAX,
        framing::reply_fits(reply, c.request(data, written as int).len()),
    ensures
        match c.encode(written, reply).1 {
            Progress::More(n) => written <= n <= data.len(),
            Progress::Done(Ok(Some(n))) => written <= n <= data.len(),
            Progress::Done(_) => written == 0 || c.framing() is None,
        },
        c.encode(written, reply).0.wf(),
{
    chunker::chunk_header_line();
    websocket::message_header();
    let ch = chunker::chunked();
    let ws = websocket::websocket();
    assert(ch.header.skip(0) == ch.header);
    assert(ch.footer.skip(0) == ch.footer);
    assert(ws.header.skip(0) == ws.header);
    if let Ok(n) = reply {
        match c.chunked {
            FrameState::Header(s) => if n < s.len() {
                assert(s.skip(n as int) == ch.header.skip(ch.header.len() - (s.len() - n)));
            },
            FrameState::Footer(s) => if n < s.len() {
                assert(s.skip(n as int) == ch.footer.skip(ch.footer.len() - (s.len() - n)));
            },
            _ => {},
        }
        match c.websocket {
            FrameState::Header(s) => if n < s.len() {
                assert(s.skip(n as int) == ws.header.skip(ws.header.len() - (s.len() - n)));
            },
            _ => {},
        }
    }
}

pub(crate) proof fn lemma_write_fits(c: ClientView, w: BufferWriteView, reply: Result<usize, ConnError>)
    requires
        c.wf(),
        w.fits(c),
        framing::reply_fits(reply, c.request(w.current(), w.written as int).len()),
    ensures
        c.after_write(w, reply).0.wf(),
        c.after_write(w, reply).0.buffer == c.buffer,
        match c.after_write(w, reply).1 {
            BufferStepView::More(next) => next.fits(c.after_write(w, reply).0),
            BufferStepView::Done(WR::Inc(a)) => a <= c.buffer.len(),
            _ => true,
        },
{
    lemma_encode_bounds(c, w.current(), w.written, reply);
}

/// The cut falls within the buffer.
pub open spec fn is_cut(cut: int, buffer: Seq<u8>) -> bool {
    0 <= cut <= buffer.len()
}

pub(crate) proof fn lemma_start_fits(c: ClientView, cut: int)
    requires
        is_cut(cut, c.buffer),
    ensures
        BufferWriteView::start(c.buffer, cut).fits(c),
        BufferWriteView::start(c.buffer, cut).owed() == c.buffer,
{
    let w = BufferWriteView::start(c.buffer, cut);
    assert(w.head + w.tail == c.buffer);
    assert(w.owed() == c.buffer);
}

// ---- The client ----

/// A listener.
#[derive(Debug)]
pub struct Client {
    buffer: VecDeque<u8>,
    last_action: u64,
    agent: Agent,
    accept: Option<String>,
    chunked_encoder: Chunker,
    websocket_encoder: WebSocketChunker,
}

impl View for Client {
    type V = ClientView;

    closed spec fn view(&self) -> ClientView {
        ClientView {
            agent: self.agent,
            buffer: self.buffer@,
            last_action: self.last_action,
            accept: request::text_view(self.accept),
            chunked: self.chunked_encoder@,
            websocket: self.websocket_encoder@,
        }
    }
}

/// Puts `data` behind `buffer`, and drops the oldest bytes when there are too many.
fn push_bounded(buffer: &mut VecDeque<u8>, data: &[u8])
    ensures
        final(buffer)@ == keep_last(old(buffer)@ + data@, CLIENT_BUFFER_LEN as int),
{
    let mut i: usize = 0;
    while i < data.len()
        invariant
            i <= data@.len(),
            buffer@ == old(buffer)@ + data@.take(i as int),
        decreases data@.len() - i,
    {
        buffer.push_back(data[i]);
        assert(data@.take(i + 1) == data@.take(i as int).push(data@[i as int]));
        i = i + 1;
    }
    assert(data@.take(data@.len() as int) == data@);
    let ghost all = old(buffer)@ + data@;
    assert(all.skip(0) == all);
    while buffer.len() > CLIENT_BUFFER_LEN
        invariant
            all == old(buffer)@ + data@,
            buffer@.len() <= all.len(),
            buffer@ == all.skip(all.len() - buffer@.len()),
            all.len() <= CLIENT_BUFFER_LEN ==> buffer@.len() == all.len(),
            all.len() > CLIENT_BUFFER_LEN ==> buffer@.len() >= CLIENT_BUFFER_LEN,
        decreases buffer@.len(),
    {
        buffer.pop_front();
        assert(buffer@ == all.skip(all.len() - buffer@.len()));
    }
}

/// Drops the first `n` bytes.
fn drop_front(buffer: &mut VecDeque<u8>, n: usize)
    requires
        n <= old(buffer)@.len(),
    ensures
        final(buffer)@ == old(buffer)@.skip(n as int),
{
    let mut i: usize = 0;
    assert(buffer@ == old(buffer)@.skip(0));
    while i < n
        invariant
            i <= n <= old(buffer)@.len(),
            buffer@ == old(buffer)@.skip(i as int),
        decreases n - i,
    {
        buffer.pop_front();
        assert(buffer@ == old(buffer)@.skip(i + 1));
        i = i + 1;
    }
}

impl Client {
    pub open spec fn wf(&self) -> bool {
        self@.wf()
    }

    pub fn new(agent: Agent, accept: Option<String>, now: u64) -> (r: Client)
        ensures
            r@ == ClientView::start(agent, request::text_view(accept), now),
            r.wf(),
    {
        let r = Client {
            buffer: VecDeque::with_capacity(CLIENT_BUFFER_LEN),
            last_action: now,
            agent,
            accept,
            chunked_encoder: Chunker::new(),
            websocket_encoder: WebSocketChunker::new(),
        };
        assert(r@.buffer == Seq::<u8>::empty());
        r
    }

    pub fn agent(&self) -> (r: Agent)
        ensures
            r == self@.agent,
    {
        self.agent
    }

    /// When the client was last served.
    pub fn last_action(&self) -> (r: u64)
        ensures
            r == self@.last_action,
    {
        self.last_action
    }

    /// The head of the response to the client. All of it is to be written before
    /// anything is sent.
    pub fn write_resp(&self, server: &str, name: &str, config: &StreamConfig) -> (r: Vec<u8>)
        ensures
            r@ == vstd::utf8::encode_utf8(
                response::response_text(self@.agent, self@.accept, server@, name@, config@),
            ),
    {
        response::response(self.agent, &self.accept, server, name, config)
    }

    /// The bytes to write next, when the first `written` bytes of `data` are taken.
    fn next_write<'a>(&'a self, data: &'a [u8], written: usize) -> (r: &'a [u8])
        requires
            self.wf(),
            written <= data@.len(),
        ensures
            r@ == self@.request(data@, written as int),
    {
        match self.agent {
            Agent::NotChunked => {
                let r = slice_subrange(data, written, data.len());
                assert(r@ == data@.skip(written as int));
                r
            },
            Agent::WebSocket => self.websocket_encoder.next_write(data, written),
            _ => self.chunked_encoder.next_write(data, written),
        }
    }

    /// Takes in the answer to the write that `next_write` gave for `data` and `written`.
    fn encode(
        &mut self,
        data: &[u8],
        written: usize,
        reply: Result<usize, ConnError>,
    ) -> (r: Progress)
        requires
            old(self).wf(),
            written <= data@.len(),
            framing::reply_fits(reply, old(self)@.request(data@, written as int).len()),
        ensures
            (final(self)@, r) == old(self)@.encode(written, reply),
            final(self).wf(),
    {
        assert(data.len() == data@.len());
        match self.agent {
            Agent::NotChunked => {
                match reply {
                    Ok(n) => Progress::Done(Ok(Some(written + n))),
                    Err(e) => Progress::Done(Err(e)),
                }
            },
            Agent::WebSocket => self.websocket_encoder.write(data, written, reply),
            _ => self.chunked_encoder.write(data, written, reply),
        }
    }

    /// A write of the whole buffer. Where the buffer is cut in head and tail is not said.
    fn start_write(&self) -> (r: BufferWrite)
        requires
            self.wf(),
        ensures
            exists|cut: int|
                is_cut(cut, self@.buffer) && r@ == #[trigger] BufferWriteView::start(
                    self@.buffer,
                    cut,
                ),
            r@.fits(self@),
    {
        let parts = as_slices(&self.buffer);
        let r = BufferWrite {
            head: slice_to_vec(parts.0),
            tail: slice_to_vec(parts.1),
            in_tail: false,
            written: 0,
        };
        proof {
            let cut = r@.head.len() as int;
            assert(r@.head == self@.buffer.take(cut));
            assert(r@.tail == self@.buffer.skip(cut));
            assert(r@ == BufferWriteView::start(self@.buffer, cut));
            lemma_start_fits(self@, cut);
        }
        r
    }

    /// The bytes to write next in a write of the buffer.
    pub fn buffer_bytes<'a>(&'a self, w: &'a BufferWrite) -> (r: &'a [u8])
        requires
            self.wf(),
            w@.fits(self@),
        ensures
            r@ == self@.request(w@.current(), w@.written as int),
    {
        if w.in_tail {
            self.next_write(w.tail.as_slice(), w.written)
        } else {
            self.next_write(w.head.as_slice(), w.written)
        }
    }

    /// A write of the buffer goes on with the answer to the bytes that
    /// [`Client::buffer_bytes`] gave.
    pub fn write_buffer(&mut self, w: BufferWrite, reply: Result<usize, ConnError>) -> (r:
        BufferStep)
        requires
            old(self).wf(),
            w@.fits(old(self)@),
            framing::reply_fits(
                reply,
                old(self)@.request(w@.current(), w@.written as int).len(),
            ),
        ensures
            (final(self)@, r@) == old(self)@.after_write(w@, reply),
            final(self).wf(),
            final(self)@.buffer == old(self)@.buffer,
            r@ matches BufferStepView::More(next) ==> next.fits(final(self)@),
            r@ matches BufferStepView::Done(WR::Inc(a)) ==> a <= final(self)@.buffer.len(),
    {
        proof {
            lemma_write_fits(self@, w@, reply);
        }
        if w.in_tail {
            let len: usize = w.tail.len();
            let head: usize = w.head.len();
            proof {
                lemma_encode_bounds(self@, w@.tail, w@.written, reply);
            }
            match self.encode(w.tail.as_slice(), w.written, reply) {
                Progress::More(n) => BufferStep::More(BufferWrite { written: n, ..w }),
                Progress::Done(Ok(Some(a))) => {
                    if a == 0 {
                        BufferStep::Done(WR::Failed)
                    } else if a == len {
                        BufferStep::Done(WR::All)
                    } else {
                        BufferStep::Done(WR::Inc(a + head))
                    }
                },
                Progress::Done(Ok(None)) => BufferStep::Done(WR::Inc(head)),
                Progress::Done(Err(ConnError::WouldBlock)) => BufferStep::Done(WR::Inc(head)),
                Progress::Done(Err(ConnError::Other)) => BufferStep::Done(WR::Failed),
            }
        } else {
            let len: usize = w.head.len();
            match self.encode(w.head.as_slice(), w.written, reply) {
                Progress::More(n) => BufferStep::More(BufferWrite { written: n, ..w }),
                Progress::Done(Ok(Some(a))) => {
                    if a == 0 {
                        BufferStep::Done(WR::Failed)
                    } else if a == len {
                        BufferStep::More(BufferWrite { in_tail: true, written: 0, ..w })
                    } else {
                        BufferStep::Done(WR::Inc(a))
                    }
                },
                Progress::Done(Ok(None)) => BufferStep::Done(WR::Inc(0)),
                Progress::Done(Err(ConnError::WouldBlock)) => BufferStep::Done(WR::Blocked),
                Progress::Done(Err(ConnError::Other)) => BufferStep::Done(WR::Failed),
            }
        }
    }

    /// Begins to write out the buffer.
    pub fn flush_buffer(&mut self, now: u64) -> (r: FlushStep)
        requires
            old(self).wf(),
        ensures
            exists|cut: int|
                is_cut(cut, old(self)@.buffer) && #[trigger] old(self)@.start_flush(now, cut) == (
                    final(self)@,
                    r@,
                ),
            final(self).wf(),
            r@ matches FlushStepView::More(w) ==> w.fits(final(self)@),
    {
        self.last_action = now;
        if self.buffer.len() == 0 {
            assert(is_cut(0, old(self)@.buffer));
            assert(old(self)@.start_flush(now, 0) == (self@, FlushStepView::Done(Ok(true))));
            return FlushStep::Done(Ok(true));
        }
        let w = self.start_write();
        proof {
            let cut = choose|cut: int|
                is_cut(cut, self@.buffer) && w@ == #[trigger] BufferWriteView::start(
                    self@.buffer,
                    cut,
                );
            assert(old(self)@.start_flush(now, cut) == (self@, FlushStepView::More(w@)));
        }
        FlushStep::More(w)
    }

    /// A flush goes on with the answer to the bytes that [`Client::buffer_bytes`] gave.
    pub fn continue_flush(&mut self, w: BufferWrite, reply: Result<usize, ConnError>) -> (r:
        FlushStep)
        requires
            old(self).wf(),
            w@.fits(old(self)@),
            framing::reply_fits(
                reply,
                old(self)@.request(w@.current(), w@.written as int).len(),
            ),
        ensures
            exists|cut: int|
                is_cut(cut, final(self)@.buffer) && #[trigger] old(self)@.after_flush(
                    w@,
                    reply,
                    cut,
                ) == (final(self)@, r@),
            final(self).wf(),
            r@ matches FlushStepView::More(next) ==> next.fits(final(self)@),
            r@ == FlushStepView::Done(Ok(true)) ==> final(self)@.buffer.len() == 0,
    {
        let ghost before = self@;
        let step = self.write_buffer(w, reply);
        match step {
            BufferStep::More(next) => {
                proof {
                    assert(is_cut(0, self@.buffer));
                    assert(before.after_flush(w@, reply, 0) == (
                        self@,
                        FlushStepView::More(next@),
                    ));
                }
                FlushStep::More(next)
            },
            BufferStep::Done(WR::All) => {
                self.buffer.clear();
                proof {
                    assert(self@.buffer == Seq::<u8>::empty());
                    assert(is_cut(0, self@.buffer));
                    assert(before.after_flush(w@, reply, 0) == (
                        self@,
                        FlushStepView::Done(Ok(true)),
                    ));
                }
                FlushStep::Done(Ok(true))
            },
            BufferStep::Done(WR::Inc(a)) => {
                drop_front(&mut self.buffer, a);
                let next = self.start_write();
                proof {
                    let cut = choose|cut: int|
                        is_cut(cut, self@.buffer) && next@ == #[trigger] BufferWriteView::start(
                            self@.buffer,
                            cut,
                        );
                    assert(before.after_flush(w@, reply, cut) == (
                        self@,
                        FlushStepView::More(next@),
                    ));
                }
                FlushStep::More(next)
            },
            BufferStep::Done(WR::Blocked) => {
                proof {
                    assert(is_cut(0, self@.buffer));
                    assert(before.after_flush(w@, reply, 0) == (
                        self@,
                        FlushStepView::Done(Ok(false)),
                    ));
                }
                FlushStep::Done(Ok(false))
            },
            BufferStep::Done(WR::Failed) => {
                proof {
                    assert(is_cut(0, self@.buffer));
                    assert(before.after_flush(w@, reply, 0) == (
                        self@,
                        FlushStepView::Done(Err(())),
                    ));
                }
                FlushStep::Done(Err(()))
            },
        }
    }

    /// Begins to send a piece of audio. Nothing is sent for an empty one.
    pub fn send_data(&mut self, frame: &BufferData, now: u64) -> (r: SendStep)
        requires
            old(self).wf(),
        ensures
            exists|cut: int|
                is_cut(cut, old(self)@.buffer) && #[trigger] old(self)@.start_send(
                    frame@,
                    now,
                    cut,
                ) == (final(self)@, r@),
            final(self).wf(),
            r@ matches SendStepView::More(s) ==> s.fits(final(self)@),
    {
        let ghost before = self@;
        if frame.frame().len() == 0 {
            assert(is_cut(0, before.buffer));
            assert(before.start_send(frame@, now, 0) == (before, SendStepView::Done(Ok(()))));
            return SendStep::Done(Ok(()));
        }
        let packet: Vec<u8> = match self.agent {
            Agent::WebSocket => frame.packet(),
            _ => slice_to_vec(frame.frame()),
        };
        assert(packet.len() == packet@.len());
        let flush: Option<BufferWrite> = match self.flush_buffer(now) {
            FlushStep::More(w) => Some(w),
            FlushStep::Done(_) => None,
        };
        let s = Sending { packet, flush, written: 0 };
        proof {
            let cut = choose|cut: int|
                is_cut(cut, before.buffer) && (#[trigger] before.start_flush(now, cut)).0 == self@
                    && match before.start_flush(now, cut).1 {
                    FlushStepView::More(w) => s@.flush == Some(w),
                    FlushStepView::Done(_) => s@.flush is None,
                };
            assert(before.start_send(frame@, now, cut) == (self@, SendStepView::More(s@)));
        }
        SendStep::More(s)
    }

    /// The bytes to write next in a sending.
    pub fn send_bytes<'a>(&'a self, s: &'a Sending) -> (r: &'a [u8])
        requires
            self.wf(),
            s@.fits(self@),
        ensures
            r@ == self@.send_request(s@),
    {
        match &s.flush {
            Some(w) => self.buffer_bytes(w),
            None => self.next_write(s.packet.as_slice(), s.written),
        }
    }

    /// A sending goes on with the answer to the bytes that [`Client::send_bytes`] gave.
    pub fn continue_send(&mut self, s: Sending, reply: Result<usize, ConnError>) -> (r: SendStep)
        requires
            old(self).wf(),
            s@.fits(old(self)@),
            framing::reply_fits(reply, old(self)@.send_request(s@).len()),
        ensures
            exists|cut: int|
                is_cut(cut, final(self)@.buffer) && #[trigger] old(self)@.after_send(
                    s@,
                    reply,
                    cut,
                ) == (final(self)@, r@),
            final(self).wf(),
            r@ matches SendStepView::More(next) ==> next.fits(final(self)@),
    {
        let ghost before = self@;
        let ghost op = s@;
        let Sending { packet, flush, written } = s;
        match flush {
            Some(w) => {
                let step = self.continue_flush(w, reply);
                let ghost cut = choose|cut: int|
                    is_cut(cut, self@.buffer) && #[trigger] before.after_flush(w@, reply, cut) == (
                        self@,
                        step@,
                    );
                let ghost mid = self@;
                match step {
                    FlushStep::More(next) => {
                        let r = Sending { packet, flush: Some(next), written };
                        assert(before.after_send(op, reply, cut) == (
                            self@,
                            SendStepView::More(r@),
                        ));
                        SendStep::More(r)
                    },
                    FlushStep::Done(Ok(done)) => {
                        if done {
                            let r = Sending { packet, flush: None, written };
                            assert(before.after_send(op, reply, cut) == (
                                self@,
                                SendStepView::More(r@),
                            ));
                            SendStep::More(r)
                        } else {
                            push_bounded(&mut self.buffer, packet.as_slice());
                            assert(self@ == mid.queue(op.packet));
                            assert(before.after_send(op, reply, cut) == (
                                self@,
                                SendStepView::Done(Ok(())),
                            ));
                            SendStep::Done(Ok(()))
                        }
                    },
                    FlushStep::Done(Err(_)) => {
                        assert(before.after_send(op, reply, cut) == (
                            self@,
                            SendStepView::Done(Err(())),
                        ));
                        SendStep::Done(Err(()))
                    },
                }
            },
            None => {
                proof {
                    lemma_encode_bounds(self@, op.packet, op.written, reply);
                }
                let len: usize = packet.len();
                let progress = self.encode(packet.as_slice(), written, reply);
                let ghost mid = self@;
                let r: SendStep = match progress {
                    Progress::More(n) => SendStep::More(
                        Sending { packet, flush: None, written: n },
                    ),
                    Progress::Done(Ok(Some(a))) => {
                        if a == 0 {
                            SendStep::Done(Err(()))
                        } else if a == len {
                            SendStep::Done(Ok(()))
                        } else {
                            push_bounded(
                                &mut self.buffer,
                                slice_subrange(packet.as_slice(), a, len),
                            );
                            assert(op.packet.subrange(a as int, len as int) == op.packet.skip(
                                a as int,
                            ));
                            assert(self@ == mid.queue(op.packet.skip(a as int)));
                            SendStep::Done(Ok(()))
                        }
                    },
                    Progress::Done(Ok(None)) => {
                        push_bounded(&mut self.buffer, packet.as_slice());
                        assert(self@ == mid.queue(op.packet));
                        SendStep::Done(Ok(()))
                    },
                    Progress::Done(Err(ConnError::WouldBlock)) => {
                        push_bounded(&mut self.buffer, packet.as_slice());
                        assert(self@ == mid.queue(op.packet));
                        SendStep::Done(Ok(()))
                    },
                    Progress::Done(Err(ConnError::Other)) => SendStep::Done(Err(())),
                };
                assert(before.after_send(op, reply, 0) == (self@, r@));
                r
            },
        }
    }
}

} // verus!
