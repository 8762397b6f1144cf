//! What holds of the bytes that a client is sent, however its connection takes them.

use vstd::prelude::*;
use crate::buffer;
use crate::buffer::Media;
use crate::chunker;
use crate::client;
use crate::client::{
    BufferStepView, BufferWriteView, ClientView, FlushStepView, SendStepView, SendingView,
    CLIENT_BUFFER_LEN, WR,
};
use crate::config::StreamConfigView;
use crate::framing;
use crate::framing::{ConnError, Progress};
use crate::request::Agent;
use crate::response;
use crate::websocket;

verus! {

impl ClientView {
    /// The payload that an answer takes in a sending.
    pub open spec fn accepted(self, s: SendingView, reply: Result<usize, ConnError>) -> Seq<u8> {
        self.taken(s.current(), s.position() as int, framing::count(reply))
    }
}

/// What is owed before an answer is what the answer takes, and what is owed after it.
pub open spec fn keeps_owed(
    c: ClientView,
    s: SendingView,
    reply: Result<usize, ConnError>,
    cut: int,
) -> bool {
    let acc = c.accepted(s, reply);
    match c.after_send(s, reply, cut) {
        (_, SendStepView::More(next)) => s.owed() == acc + next.owed(),
        (c2, SendStepView::Done(Ok(_))) => {
            &&& acc.len() <= s.owed().len()
            &&& s.owed().take(acc.len() as int) == acc
            &&& c2.buffer == client::keep_last(
                s.owed().skip(acc.len() as int),
                CLIENT_BUFFER_LEN as int,
            )
        },
        (_, SendStepView::Done(Err(_))) => acc.len() == 0,
    }
}

/// What an answer takes of `data` is what the progress says.
proof fn lemma_encode_takes(
    c: ClientView,
    data: Seq<u8>,
    written: usize,
    reply: Result<usize, ConnError>,
)
    requires
        c.wf(),
        written <= data.len() <= usize::MAX,
        c.framing() is None ==> written == 0,
        framing::reply_fits(reply, c.request(data, written as int).len()),
    ensures
        match c.encode(written, reply).1 {
            Progress::More(m) => {
                &&& written <= m <= data.len()
                &&& c.taken(data, written as int, framing::count(reply)) == data.subrange(
                    written as int,
                    m as int,
                )
            },
            Progress::Done(Ok(Some(m))) => {
                &&& written <= m <= data.len()
                &&& c.taken(data, written as int, framing::count(reply)) == data.subrange(
                    written as int,
                    m as int,
                )
            },
            Progress::Done(_) => {
                &&& written == 0
                &&& c.taken(data, written as int, framing::count(reply)) == Seq::<u8>::empty()
            },
        },
{
    client::lemma_encode_bounds(c, data, written, reply);
    assert(data.subrange(written as int, written as int) == Seq::<u8>::empty());
}

proof fn lemma_write_keeps_owed(c: ClientView, w: BufferWriteView, reply: Result<usize, ConnError>)
    requires
        c.wf(),
        w.fits(c),
        framing::reply_fits(reply, c.request(w.current(), w.written as int).len()),
    ensures
        ({
            let acc = c.taken(w.current(), w.written as int, framing::count(reply));
            match c.after_write(w, reply).1 {
                BufferStepView::More(next) => w.owed() == acc + next.owed(),
                BufferStepView::Done(WR::All) => w.owed() == acc,
                BufferStepView::Done(WR::Inc(a)) => w.owed() == acc + c.buffer.skip(a as int),
                BufferStepView::Done(WR::Blocked) => {
                    &&& acc == Seq::<u8>::empty()
                    &&& w.owed() == c.buffer
                },
                BufferStepView::Done(WR::Failed) => acc.len() == 0,
            }
        }),
{
    let cur = w.current();
    let acc = c.taken(cur, w.written as int, framing::count(reply));
    lemma_encode_takes(c, cur, w.written, reply);
    client::lemma_write_fits(c, w, reply);
    match c.encode(w.written, reply).1 {
        Progress::More(m) => {
            let next = BufferWriteView { written: m, ..w };
            assert(cur.skip(w.written as int) == acc + cur.skip(m as int));
            assert(w.owed() == acc + next.owed());
        },
        Progress::Done(Ok(Some(a))) => {
            assert(cur.skip(w.written as int) == acc + cur.skip(a as int));
            if w.in_tail {
                assert(c.buffer.skip(a + w.head.len()) == w.tail.skip(a as int));
            } else {
                assert(c.buffer.skip(a as int) == w.head.skip(a as int) + w.tail);
                assert(w.tail.skip(0) == w.tail);
                if a == w.head.len() {
                    assert(w.head.skip(a as int) == Seq::<u8>::empty());
                    assert(w.owed() == acc + w.tail);
                } else {
                    assert(w.owed() == acc + c.buffer.skip(a as int));
                }
            }
            if a == cur.len() {
                assert(cur.skip(a as int) == Seq::<u8>::empty());
                assert(acc == cur.skip(w.written as int));
            }
        },
        Progress::Done(_) => {
            assert(cur.skip(0) == cur);
            assert(c.buffer.skip(0) == c.buffer);
            assert(c.buffer.skip(w.head.len() as int) == w.tail);
            assert(acc + w.tail == w.tail);
            assert(acc + c.buffer == c.buffer);
        },
    }
}

/// No byte is lost, doubled or moved in a flush: what is owed is what an answer takes,
/// followed by what is owed after it. A flush that ends has left nothing owed, or has
/// left all of the buffer for later. An answer with which it fails has taken nothing.
#[verifier::spinoff_prover]
pub proof fn flush_keeps_owed(
    c: ClientView,
    w: BufferWriteView,
    reply: Result<usize, ConnError>,
    cut: int,
)
    requires
        c.wf(),
        w.fits(c),
        framing::reply_fits(reply, c.request(w.current(), w.written as int).len()),
        c.after_flush(w, reply, cut).1 is More ==> client::is_cut(
            cut,
            c.after_flush(w, reply, cut).0.buffer,
        ),
    ensures
        ({
            let acc = c.taken(w.current(), w.written as int, framing::count(reply));
            match c.after_flush(w, reply, cut) {
                (c2, FlushStepView::More(next)) => w.owed() == acc + next.owed() && next.fits(c2),
                (c2, FlushStepView::Done(Ok(true))) => w.owed() == acc && c2.buffer.len() == 0,
                (c2, FlushStepView::Done(Ok(false))) => {
                    acc.len() == 0 && w.owed() == c2.buffer && c2.buffer == c.buffer
                },
                (_, FlushStepView::Done(Err(_))) => acc.len() == 0,
            }
        }),
{
    lemma_write_keeps_owed(c, w, reply);
    client::lemma_write_fits(c, w, reply);
    match c.after_write(w, reply).1 {
        BufferStepView::Done(WR::Inc(a)) => {
            client::lemma_start_fits(c.after_flush(w, reply, cut).0, cut);
        },
        _ => {},
    }
}

#[verifier::spinoff_prover]
proof fn lemma_flush_keeps_owed(
    c: ClientView,
    s: SendingView,
    w: BufferWriteView,
    reply: Result<usize, ConnError>,
    cut: int,
)
    requires
        c.wf(),
        s.fits(c),
        s.flush == Some(w),
        framing::reply_fits(reply, c.send_request(s).len()),
        client::is_cut(cut, c.after_send(s, reply, cut).0.buffer),
    ensures
        keeps_owed(c, s, reply, cut),
{
    client::lemma_write_fits(c, w, reply);
    let acc = c.accepted(s, reply);
    let (c2, flush) = c.after_flush(w, reply, cut);
    flush_keeps_owed(c, w, reply, cut);
    match flush {
        FlushStepView::More(next) => {
            assert(w.owed() + s.packet == acc + (next.owed() + s.packet));
        },
        FlushStepView::Done(Ok(true)) => {
            assert(s.packet.skip(0) == s.packet);
        },
        FlushStepView::Done(Ok(false)) => {
            assert(s.owed() == c.buffer + s.packet);
            assert(s.owed().skip(0) == s.owed());
            assert(s.owed().take(0) == acc);
        },
        FlushStepView::Done(Err(_)) => {},
    }
}

proof fn lemma_direct_keeps_owed(
    c: ClientView,
    s: SendingView,
    reply: Result<usize, ConnError>,
    cut: int,
)
    requires
        c.wf(),
        s.fits(c),
        s.flush is None,
        framing::reply_fits(reply, c.send_request(s).len()),
    ensures
        keeps_owed(c, s, reply, cut),
{
    let p = s.packet;
    let acc = c.accepted(s, reply);
    lemma_encode_takes(c, p, s.written, reply);
    assert(c.buffer == Seq::<u8>::empty());
    match c.encode(s.written, reply).1 {
        Progress::More(m) => {
            assert(p.skip(s.written as int) == acc + p.skip(m as int));
        },
        Progress::Done(Ok(Some(a))) => {
            if a == p.len() {
                assert(acc == p.skip(s.written as int));
                assert(s.owed().take(acc.len() as int) == acc);
                assert(s.owed().skip(acc.len() as int) == Seq::<u8>::empty());
            } else if a > 0 {
                assert(s.owed().take(acc.len() as int) == acc);
                assert(s.owed().skip(acc.len() as int) == p.skip(a as int));
                assert(c.buffer + p.skip(a as int) == p.skip(a as int));
            }
        },
        Progress::Done(_) => {
            assert(s.owed() == p);
            assert(s.owed().take(0) == acc);
            assert(s.owed().skip(0) == p);
            assert(c.buffer + p == p);
        },
    }
}

/// No byte is lost, doubled or moved: what is owed to a client is what an answer takes,
/// followed by what is owed after it. When the sending is over, what is owed is the
/// buffer, except for the oldest bytes if there are too many. An answer with which the
/// sending fails has taken nothing.
pub proof fn step_keeps_owed(
    c: ClientView,
    s: SendingView,
    reply: Result<usize, ConnError>,
    cut: int,
)
    requires
        c.wf(),
        s.fits(c),
        framing::reply_fits(reply, c.send_request(s).len()),
        client::is_cut(cut, c.after_send(s, reply, cut).0.buffer),
    ensures
        keeps_owed(c, s, reply, cut),
{
    match s.flush {
        Some(w) => {
            lemma_flush_keeps_owed(c, s, w, reply, cut);
        },
        None => {
            lemma_direct_keeps_owed(c, s, reply, cut);
        },
    }
}

/// A sending stays one to its client.
pub proof fn step_keeps_invariant(
    c: ClientView,
    s: SendingView,
    reply: Result<usize, ConnError>,
    cut: int,
)
    requires
        c.wf(),
        s.fits(c),
        framing::reply_fits(reply, c.send_request(s).len()),
        client::is_cut(cut, c.after_send(s, reply, cut).0.buffer),
    ensures
        c.after_send(s, reply, cut).0.wf(),
        c.after_send(s, reply, cut).0.agent == c.agent,
        c.after_send(s, reply, cut).1 matches SendStepView::More(next) ==> next.fits(
            c.after_send(s, reply, cut).0,
        ),
{
    match s.flush {
        Some(w) => {
            client::lemma_write_fits(c, w, reply);
            if let BufferStepView::Done(WR::Inc(_)) = c.after_write(w, reply).1 {
                client::lemma_start_fits(c.after_flush(w, reply, cut).0, cut);
            }
        },
        None => {
            client::lemma_encode_bounds(c, s.packet, s.written, reply);
        },
    }
}

// ---- A whole sending ----

/// What came of writes of a sending.
#[verifier::ext_equal]
pub struct SendRun {
    pub client: ClientView,
    pub step: SendStepView,
    /// All bytes that the connection took.
    pub sent: Seq<u8>,
    /// The payload among them.
    pub accepted: Seq<u8>,
}

/// An answer of the connection, and the place at which the buffer is cut if the flush
/// writes it anew.
pub type Answer = (Result<usize, ConnError>, int);

impl ClientView {
    /// One write of a sending.
    #[verifier::opaque]
    pub open spec fn one(self, s: SendingView, a: Answer) -> SendRun {
        SendRun {
            client: self.after_send(s, a.0, a.1).0,
            step: self.after_send(s, a.0, a.1).1,
            sent: self.send_request(s).take(framing::count(a.0)),
            accepted: self.accepted(s, a.0),
        }
    }

    /// The answer can be one to the write of the sending.
    #[verifier::opaque]
    pub open spec fn answer_fits(self, s: SendingView, a: Answer) -> bool {
        &&& framing::reply_fits(a.0, self.send_request(s).len())
        &&& client::is_cut(a.1, self.after_send(s, a.0, a.1).0.buffer)
    }

    /// The writes of a sending, with their answers in turn.
    pub open spec fn run(self, s: SendingView, answers: Seq<Answer>) -> SendRun
        decreases answers.len(),
    {
        if answers.len() == 0 {
            SendRun {
                client: self,
                step: SendStepView::More(s),
                sent: Seq::empty(),
                accepted: Seq::empty(),
            }
        } else {
            let first = self.one(s, answers[0]);
            match first.step {
                SendStepView::Done(_) => first,
                SendStepView::More(next) => {
                    let rest = first.client.run(next, answers.drop_first());
                    SendRun {
                        client: rest.client,
                        step: rest.step,
                        sent: first.sent + rest.sent,
                        accepted: first.accepted + rest.accepted,
                    }
                },
            }
        }
    }

    /// The answers can be answers to the writes of the sending.
    pub open spec fn answers_fit(self, s: SendingView, answers: Seq<Answer>) -> bool
        decreases answers.len(),
    {
        answers.len() > 0 ==> {
            &&& self.answer_fits(s, answers[0])
            &&& self.one(s, answers[0]).step matches SendStepView::More(next) ==> self.one(
                s,
                answers[0],
            ).client.answers_fit(next, answers.drop_first())
        }
    }
}

/// What is taken is the start of what was owed, and what is owed afterwards is the rest,
/// except for the oldest bytes if there are too many.
pub open spec fn accounts(s: SendingView, run: SendRun) -> bool {
    match run.step {
        SendStepView::More(next) => s.owed() == run.accepted + next.owed(),
        SendStepView::Done(Ok(_)) => {
            &&& run.accepted.len() <= s.owed().len()
            &&& s.owed().take(run.accepted.len() as int) == run.accepted
            &&& run.client.buffer == client::keep_last(
                s.owed().skip(run.accepted.len() as int),
                CLIENT_BUFFER_LEN as int,
            )
        },
        SendStepView::Done(Err(_)) => {
            &&& run.accepted.len() <= s.owed().len()
            &&& s.owed().take(run.accepted.len() as int) == run.accepted
        },
    }
}

proof fn lemma_one_accounts(c: ClientView, s: SendingView, a: Answer)
    requires
        c.wf(),
        s.fits(c),
        c.answer_fits(s, a),
    ensures
        c.one(s, a).client.wf(),
        c.one(s, a).step matches SendStepView::More(next) ==> next.fits(c.one(s, a).client),
        accounts(s, c.one(s, a)),
{
    reveal(ClientView::one);
    reveal(ClientView::answer_fits);
    step_keeps_invariant(c, s, a.0, a.1);
    step_keeps_owed(c, s, a.0, a.1);
    assert(keeps_owed(c, s, a.0, a.1));
    let one = c.one(s, a);
    if one.accepted.len() == 0 {
        assert(s.owed().take(0) == one.accepted);
    }
}

/// However the connection takes the writes of a sending, what it takes is the start of
/// what was owed: the old buffer with the packet behind it. If the sending succeeds, the
/// buffer holds the rest, except for the oldest bytes if there are too many.
#[verifier::spinoff_prover]
pub proof fn sending_keeps_owed(c: ClientView, s: SendingView, answers: Seq<Answer>)
    requires
        c.wf(),
        s.fits(c),
        c.answers_fit(s, answers),
    ensures
        accounts(s, c.run(s, answers)),
    decreases answers.len(),
{
    let run = c.run(s, answers);
    if answers.len() == 0 {
        assert(s.owed() == run.accepted + s.owed());
    } else {
        let first = c.one(s, answers[0]);
        lemma_one_accounts(c, s, answers[0]);
        if let SendStepView::More(next) = first.step {
            let rest = first.client.run(next, answers.drop_first());
            let acc = first.accepted;
            sending_keeps_owed(first.client, next, answers.drop_first());
            match rest.step {
                SendStepView::More(last) => {
                    assert(acc + (rest.accepted + last.owed()) == run.accepted + last.owed());
                },
                SendStepView::Done(Ok(_)) => {
                    assert(s.owed() == acc + next.owed());
                    assert(s.owed().take(run.accepted.len() as int) == acc + next.owed().take(
                        rest.accepted.len() as int,
                    ));
                    assert(s.owed().skip(run.accepted.len() as int) == next.owed().skip(
                        rest.accepted.len() as int,
                    ));
                },
                SendStepView::Done(Err(_)) => {
                    assert(s.owed() == acc + next.owed());
                    assert(s.owed().take(run.accepted.len() as int) == acc + next.owed().take(
                        rest.accepted.len() as int,
                    ));
                },
            }
        }
    }
}

/// A sending leaves the encoders where the last write left them.
pub(crate) proof fn lemma_send_encodes(
    c: ClientView,
    s: SendingView,
    reply: Result<usize, ConnError>,
    cut: int,
)
    ensures
        ({
            let c1 = c.encode(s.position(), reply).0;
            let c2 = c.after_send(s, reply, cut).0;
            c2.agent == c.agent && c2.chunked == c1.chunked && c2.websocket == c1.websocket
        }),
{
}

impl ClientView {
    /// The connection of the client took the bytes `wire`, and they are `payload` in the
    /// framing of the client, as far as that goes in its present state.
    #[verifier::opaque]
    pub open spec fn streams(self, payload: Seq<u8>, wire: Seq<u8>) -> bool {
        match self.framing() {
            Some(f) => f.agrees(self.frame_state(), payload) && wire == f.wire(
                self.frame_state(),
                payload,
            ),
            None => wire == payload,
        }
    }
}

/// A new client has taken nothing.
pub proof fn new_client_streams(c: ClientView)
    requires
        c == ClientView::start(c.agent, c.accept, c.last_action),
    ensures
        c.streams(Seq::empty(), Seq::empty()),
{
    reveal(ClientView::streams);
    chunker::chunk_header_line();
    websocket::message_header();
    let none = Seq::<u8>::empty();
    if let Some(f) = c.framing() {
        assert(f.header.skip(0) == f.header);
        assert(f.wire(f.start(), none) == none);
    }
}

/// What is on the wire of a client can be read back as the payload.
pub proof fn streams_read_back(c: ClientView, payload: Seq<u8>, wire: Seq<u8>)
    requires
        c.streams(payload, wire),
    ensures
        match c.framing() {
            Some(f) => f.decode(wire) == payload,
            None => wire == payload,
        },
{
    reveal(ClientView::streams);
    chunker::chunk_header_line();
    websocket::message_header();
    if let Some(f) = c.framing() {
        framing::decode_reads_payload(f, c.frame_state(), payload);
    }
}

/// An answer in a sending, whatever comes of it, keeps the wire of a client the framing
/// of the payload that its connection took.
pub proof fn step_keeps_stream(
    c: ClientView,
    s: SendingView,
    reply: Result<usize, ConnError>,
    cut: int,
    payload: Seq<u8>,
    wire: Seq<u8>,
)
    requires
        c.wf(),
        s.fits(c),
        framing::reply_fits(reply, c.send_request(s).len()),
        c.streams(payload, wire),
    ensures
        c.after_send(s, reply, cut).0.streams(
            payload + c.accepted(s, reply),
            wire + c.send_request(s).take(framing::count(reply)),
        ),
{
    reveal(ClientView::streams);
    chunker::chunk_header_line();
    websocket::message_header();
    lemma_send_encodes(c, s, reply, cut);
    let n = framing::count(reply);
    match c.framing() {
        Some(f) => {
            framing::step_keeps_framing(
                f,
                c.frame_state(),
                payload,
                s.current(),
                s.position(),
                reply,
            );
        },
        None => {
            let cur = s.current();
            let pos = s.position() as int;
            assert(cur.skip(pos).take(n) == cur.subrange(pos, pos + n));
        },
    }
}

proof fn lemma_one_keeps_stream(
    c: ClientView,
    s: SendingView,
    a: Answer,
    payload: Seq<u8>,
    wire: Seq<u8>,
)
    requires
        c.wf(),
        s.fits(c),
        c.answer_fits(s, a),
        c.streams(payload, wire),
    ensures
        c.one(s, a).client.streams(payload + c.one(s, a).accepted, wire + c.one(s, a).sent),
{
    reveal(ClientView::one);
    reveal(ClientView::answer_fits);
    step_keeps_stream(c, s, a.0, a.1, payload, wire);
}

/// Through a whole sending, the wire of a client stays the framing of the payload that its
/// connection took.
pub proof fn sending_keeps_stream(
    c: ClientView,
    s: SendingView,
    answers: Seq<Answer>,
    payload: Seq<u8>,
    wire: Seq<u8>,
)
    requires
        c.wf(),
        s.fits(c),
        c.answers_fit(s, answers),
        c.streams(payload, wire),
    ensures
        c.run(s, answers).client.streams(
            payload + c.run(s, answers).accepted,
            wire + c.run(s, answers).sent,
        ),
    decreases answers.len(),
{
    let run = c.run(s, answers);
    if answers.len() == 0 {
        assert(payload + run.accepted == payload);
        assert(wire + run.sent == wire);
    } else {
        let first = c.one(s, answers[0]);
        lemma_one_accounts(c, s, answers[0]);
        lemma_one_keeps_stream(c, s, answers[0], payload, wire);
        if let SendStepView::More(next) = first.step {
            let rest = first.client.run(next, answers.drop_first());
            sending_keeps_stream(
                first.client,
                next,
                answers.drop_first(),
                payload + first.accepted,
                wire + first.sent,
            );
            assert(payload + first.accepted + rest.accepted == payload + run.accepted);
            assert(wire + first.sent + rest.sent == wire + run.sent);
        }
    }
}

/// The response announces chunked transfer encoding to exactly the clients whose stream
/// is framed that way.
pub proof fn announced_framing_is_used(
    c: ClientView,
    server: Seq<char>,
    name: Seq<char>,
    config: StreamConfigView,
)
    ensures
        response::response_lines(c.agent, c.accept, server, name, config).contains(
            "transfer-encoding: chunked"@,
        ) <==> c.framing() == Some(chunker::chunked()),
{
    response::chunked_is_announced(c.agent, c.accept, server, name, config);
    chunker::chunk_header_line();
    websocket::message_header();
    assert(chunker::chunked().footer.len() != websocket::websocket().footer.len());
}

// ---- A whole flush ----

/// An answer in a flush keeps the wire of a client the framing of the payload that its
/// connection took.
pub proof fn flush_keeps_stream(
    c: ClientView,
    w: BufferWriteView,
    reply: Result<usize, ConnError>,
    cut: int,
    payload: Seq<u8>,
    wire: Seq<u8>,
)
    requires
        c.wf(),
        w.fits(c),
        framing::reply_fits(reply, c.request(w.current(), w.written as int).len()),
        c.streams(payload, wire),
    ensures
        c.after_flush(w, reply, cut).0.streams(
            payload + c.taken(w.current(), w.written as int, framing::count(reply)),
            wire + c.request(w.current(), w.written as int).take(framing::count(reply)),
        ),
{
    reveal(ClientView::streams);
    chunker::chunk_header_line();
    websocket::message_header();
    let n = framing::count(reply);
    match c.framing() {
        Some(f) => {
            framing::step_keeps_framing(
                f,
                c.frame_state(),
                payload,
                w.current(),
                w.written,
                reply,
            );
        },
        None => {
            let pos = w.written as int;
            assert(w.current().skip(pos).take(n) == w.current().subrange(pos, pos + n));
        },
    }
}

/// What came of writes of a flush.
#[verifier::ext_equal]
pub struct FlushRun {
    pub client: ClientView,
    pub step: FlushStepView,
    /// All bytes that the connection took.
    pub sent: Seq<u8>,
    /// The payload among them.
    pub accepted: Seq<u8>,
}

impl ClientView {
    /// One write of a flush.
    #[verifier::opaque]
    pub open spec fn flush_one(self, w: BufferWriteView, a: Answer) -> FlushRun {
        FlushRun {
            client: self.after_flush(w, a.0, a.1).0,
            step: self.after_flush(w, a.0, a.1).1,
            sent: self.request(w.current(), w.written as int).take(framing::count(a.0)),
            accepted: self.taken(w.current(), w.written as int, framing::count(a.0)),
        }
    }

    /// The answer can be one to the write of the flush.
    #[verifier::opaque]
    pub open spec fn flush_answer_fits(self, w: BufferWriteView, a: Answer) -> bool {
        &&& framing::reply_fits(a.0, self.request(w.current(), w.written as int).len())
        &&& self.after_flush(w, a.0, a.1).1 is More ==> client::is_cut(
            a.1,
            self.after_flush(w, a.0, a.1).0.buffer,
        )
    }

    /// The writes of a flush, with their answers in turn.
    pub open spec fn flush_run(self, w: BufferWriteView, answers: Seq<Answer>) -> FlushRun
        decreases answers.len(),
    {
        if answers.len() == 0 {
            FlushRun {
                client: self,
                step: FlushStepView::More(w),
                sent: Seq::empty(),
                accepted: Seq::empty(),
            }
        } else {
            let first = self.flush_one(w, answers[0]);
            match first.step {
                FlushStepView::Done(_) => first,
                FlushStepView::More(next) => {
                    let rest = first.client.flush_run(next, answers.drop_first());
                    FlushRun {
                        client: rest.client,
                        step: rest.step,
                        sent: first.sent + rest.sent,
                        accepted: first.accepted + rest.accepted,
                    }
                },
            }
        }
    }

    /// The answers can be answers to the writes of the flush.
    pub open spec fn flush_answers_fit(self, w: BufferWriteView, answers: Seq<Answer>) -> bool
        decreases answers.len(),
    {
        answers.len() > 0 ==> {
            &&& self.flush_answer_fits(w, answers[0])
            &&& self.flush_one(w, answers[0]).step matches FlushStepView::More(next)
                ==> self.flush_one(w, answers[0]).client.flush_answers_fit(
                next,
                answers.drop_first(),
            )
        }
    }
}

proof fn lemma_flush_one(
    c: ClientView,
    w: BufferWriteView,
    a: Answer,
    payload: Seq<u8>,
    wire: Seq<u8>,
)
    requires
        c.wf(),
        w.fits(c),
        c.flush_answer_fits(w, a),
        c.streams(payload, wire),
    ensures
        ({
            let one = c.flush_one(w, a);
            &&& one.client.wf()
            &&& one.client.agent == c.agent
            &&& one.client.streams(payload + one.accepted, wire + one.sent)
            &&& match one.step {
                FlushStepView::More(next) => {
                    next.fits(one.client) && w.owed() == one.accepted + next.owed()
                },
                FlushStepView::Done(Ok(_)) => w.owed() == one.accepted + one.client.buffer,
                FlushStepView::Done(Err(_)) => true,
            }
        }),
{
    reveal(ClientView::flush_one);
    reveal(ClientView::flush_answer_fits);
    client::lemma_write_fits(c, w, a.0);
    flush_keeps_owed(c, w, a.0, a.1);
    flush_keeps_stream(c, w, a.0, a.1, payload, wire);
    let one = c.flush_one(w, a);
    match one.step {
        FlushStepView::Done(Ok(_)) => {
            assert(w.owed() == one.accepted + one.client.buffer);
        },
        _ => {},
    }
}

/// However the connection takes the writes of a flush, no byte is lost, doubled or
/// moved: what it takes is the start of what was owed, and the buffer has the rest. And
/// what is on the wire stays the framing of the payload that was taken.
pub proof fn flushing_keeps_owed(
    c: ClientView,
    w: BufferWriteView,
    answers: Seq<Answer>,
    payload: Seq<u8>,
    wire: Seq<u8>,
)
    requires
        c.wf(),
        w.fits(c),
        c.flush_answers_fit(w, answers),
        c.streams(payload, wire),
    ensures
        ({
            let run = c.flush_run(w, answers);
            &&& run.client.wf()
            &&& run.client.agent == c.agent
            &&& run.client.streams(payload + run.accepted, wire + run.sent)
            &&& match run.step {
                FlushStepView::More(next) => w.owed() == run.accepted + next.owed(),
                FlushStepView::Done(Ok(_)) => w.owed() == run.accepted + run.client.buffer,
                FlushStepView::Done(Err(_)) => true,
            }
        }),
    decreases answers.len(),
{
    let run = c.flush_run(w, answers);
    if answers.len() == 0 {
        assert(payload + run.accepted == payload);
        assert(wire + run.sent == wire);
        assert(w.owed() == run.accepted + w.owed());
    } else {
        let first = c.flush_one(w, answers[0]);
        lemma_flush_one(c, w, answers[0], payload, wire);
        if let FlushStepView::More(next) = first.step {
            let rest = first.client.flush_run(next, answers.drop_first());
            flushing_keeps_owed(
                first.client,
                next,
                answers.drop_first(),
                payload + first.accepted,
                wire + first.sent,
            );
            assert(payload + first.accepted + rest.accepted == payload + run.accepted);
            assert(wire + first.sent + rest.sent == wire + run.sent);
            match rest.step {
                FlushStepView::More(last) => {
                    assert(first.accepted + (rest.accepted + last.owed()) == run.accepted
                        + last.owed());
                },
                FlushStepView::Done(Ok(_)) => {
                    assert(first.accepted + (rest.accepted + rest.client.buffer) == run.accepted
                        + rest.client.buffer);
                },
                _ => {},
            }
        }
    }
}

// ---- The sending of a piece, from its start ----

impl ClientView {
    /// A piece is sent to the client from the start on; `cut` is where the buffer is cut at
    /// first.
    pub open spec fn send_run(self, m: Media, now: u64, cut: int, answers: Seq<Answer>) -> SendRun {
        match self.start_send(m, now, cut) {
            (c, SendStepView::More(s)) => c.run(s, answers),
            (c, SendStepView::Done(r)) => SendRun {
                client: c,
                step: SendStepView::Done(r),
                sent: Seq::empty(),
                accepted: Seq::empty(),
            },
        }
    }

    /// The cut and the answers can be those of such a sending.
    pub open spec fn send_fits(self, m: Media, now: u64, cut: int, answers: Seq<Answer>) -> bool {
        &&& client::is_cut(cut, self.buffer)
        &&& match self.start_send(m, now, cut) {
            (c, SendStepView::More(s)) => c.answers_fit(s, answers),
            _ => true,
        }
    }
}

/// An answer that ends a sending ends it in the same way wherever the buffer would be cut.
pub(crate) proof fn lemma_last_answer(
    c: ClientView,
    s: SendingView,
    reply: Result<usize, ConnError>,
    cut: int,
)
    requires
        framing::reply_fits(reply, c.send_request(s).len()),
        c.after_send(s, reply, cut).1 is Done,
    ensures
        c.answers_fit(s, seq![(reply, 0int)]),
        c.run(s, seq![(reply, 0int)]).client == c.after_send(s, reply, cut).0,
        c.run(s, seq![(reply, 0int)]).step == c.after_send(s, reply, cut).1,
{
    reveal(ClientView::one);
    reveal(ClientView::answer_fits);
    let answers: Seq<Answer> = seq![(reply, 0int)];
    assert(c.after_send(s, reply, 0) == c.after_send(s, reply, cut));
    assert(answers[0] == (reply, 0int));
}

/// An answer after which a sending goes on, and what comes of it then.
pub(crate) proof fn lemma_next_answer(
    c: ClientView,
    s: SendingView,
    reply: Result<usize, ConnError>,
    cut: int,
    next: SendingView,
    answers: Seq<Answer>,
)
    requires
        framing::reply_fits(reply, c.send_request(s).len()),
        c.after_send(s, reply, cut).1 == SendStepView::More(next),
        client::is_cut(cut, c.after_send(s, reply, cut).0.buffer),
        c.after_send(s, reply, cut).0.answers_fit(next, answers),
    ensures
        c.answers_fit(s, seq![(reply, cut)] + answers),
        c.run(s, seq![(reply, cut)] + answers).client == c.after_send(s, reply, cut).0.run(
            next,
            answers,
        ).client,
        c.run(s, seq![(reply, cut)] + answers).step == c.after_send(s, reply, cut).0.run(
            next,
            answers,
        ).step,
{
    reveal(ClientView::one);
    reveal(ClientView::answer_fits);
    let all: Seq<Answer> = seq![(reply, cut)] + answers;
    assert(all[0] == (reply, cut));
    assert(all.drop_first() == answers);
}

// ---- Everything that happens to a listener ----

/// Something that happens to a listener at some time: a piece is sent to it, or, when
/// there is none, its buffer is written out. `cut` is where the buffer is cut at first,
/// and the answers are those of the connection.
#[verifier::ext_equal]
pub struct Event {
    pub piece: Option<Media>,
    pub now: u64,
    pub cut: int,
    pub answers: Seq<Answer>,
}

/// What came of events.
#[verifier::ext_equal]
pub struct Session {
    pub client: ClientView,
    /// Nothing failed, and nothing is under way.
    pub settled: bool,
    /// All bytes that the connection took.
    pub sent: Seq<u8>,
    /// The payload among them.
    pub accepted: Seq<u8>,
}

impl ClientView {
    /// An event happens to the client.
    pub open spec fn after_event(self, e: Event) -> Session {
        match e.piece {
            Some(m) => {
                let run = self.send_run(m, e.now, e.cut, e.answers);
                Session {
                    client: run.client,
                    settled: run.step == SendStepView::Done(Ok(())),
                    sent: run.sent,
                    accepted: run.accepted,
                }
            },
            None => match self.start_flush(e.now, e.cut) {
                (c, FlushStepView::More(w)) => {
                    let run = c.flush_run(w, e.answers);
                    Session {
                        client: run.client,
                        settled: run.step matches FlushStepView::Done(Ok(_)),
                        sent: run.sent,
                        accepted: run.accepted,
                    }
                },
                (c, FlushStepView::Done(_)) => Session {
                    client: c,
                    settled: true,
                    sent: Seq::empty(),
                    accepted: Seq::empty(),
                },
            },
        }
    }

    /// The event can happen to the client, and nothing fails.
    pub open spec fn succeeds(self, e: Event) -> bool {
        &&& self.after_event(e).settled
        &&& match e.piece {
            Some(m) => self.send_fits(m, e.now, e.cut, e.answers),
            None => {
                &&& client::is_cut(e.cut, self.buffer)
                &&& match self.start_flush(e.now, e.cut) {
                    (c, FlushStepView::More(w)) => c.flush_answers_fit(w, e.answers),
                    _ => true,
                }
            },
        }
    }

    /// The client keeps up with an event that succeeds: the packet fits in memory, and the
    /// buffer has room for what the connection does not take.
    pub open spec fn keeps_up(self, e: Event) -> bool {
        &&& self.succeeds(e)
        &&& e.piece matches Some(m) ==> {
            &&& m.packet().len() <= usize::MAX
            &&& match self.start_send(m, e.now, e.cut) {
                (_, SendStepView::More(s)) => s.owed().len() - self.after_event(e).accepted.len()
                    <= CLIENT_BUFFER_LEN,
                _ => true,
            }
        }
    }

    /// All the events can happen to the client in turn, and nothing fails.
    pub open spec fn session_succeeds(self, events: Seq<Event>) -> bool
        decreases events.len(),
    {
        events.len() > 0 ==> {
            &&& self.session_succeeds(events.drop_last())
            &&& self.session(events.drop_last()).client.succeeds(events.last())
        }
    }

    /// Events happen to the client in turn.
    pub open spec fn session(self, events: Seq<Event>) -> Session
        decreases events.len(),
    {
        if events.len() == 0 {
            Session { client: self, settled: true, sent: Seq::empty(), accepted: Seq::empty() }
        } else {
            let before = self.session(events.drop_last());
            let last = before.client.after_event(events.last());
            Session {
                client: last.client,
                settled: last.settled,
                sent: before.sent + last.sent,
                accepted: before.accepted + last.accepted,
            }
        }
    }

    /// The client keeps up with all the events.
    pub open spec fn session_keeps_up(self, events: Seq<Event>) -> bool
        decreases events.len(),
    {
        events.len() > 0 ==> {
            &&& self.session_keeps_up(events.drop_last())
            &&& self.session(events.drop_last()).client.keeps_up(events.last())
        }
    }

    /// The packet of an event, if a piece is sent and it is not empty.
    pub open spec fn event_packet(self, e: Event) -> Seq<u8> {
        match e.piece {
            Some(m) if m.bytes().len() > 0 => self.packet(m),
            _ => Seq::empty(),
        }
    }

    /// The packets of events, one behind the other.
    pub open spec fn packets(self, events: Seq<Event>) -> Seq<u8>
        decreases events.len(),
    {
        if events.len() == 0 {
            Seq::empty()
        } else {
            self.packets(events.drop_last()) + self.event_packet(events.last())
        }
    }
}

proof fn lemma_start_send(c: ClientView, m: Media, now: u64, cut: int)
    requires
        c.wf(),
        client::is_cut(cut, c.buffer),
        m.bytes().len() > 0,
        m.packet().len() <= usize::MAX,
    ensures
        ({
            let (c2, step) = c.start_send(m, now, cut);
            &&& c2 == ClientView { last_action: now, ..c }
            &&& step matches SendStepView::More(s)
            &&& s.fits(c2)
            &&& s.owed() == c.buffer + c.packet(m)
        }),
{
    let (c2, step) = c.start_send(m, now, cut);
    let p = c.packet(m);
    client::lemma_start_fits(c2, cut);
    if c.buffer.len() == 0 {
        assert(p.skip(0) == p);
        assert(c.buffer + p == p);
    }
}

proof fn lemma_run_keeps_client(c: ClientView, s: SendingView, answers: Seq<Answer>)
    requires
        c.wf(),
        s.fits(c),
        c.answers_fit(s, answers),
    ensures
        c.run(s, answers).client.wf(),
        c.run(s, answers).client.agent == c.agent,
    decreases answers.len(),
{
    if answers.len() > 0 {
        let first = c.one(s, answers[0]);
        lemma_one_accounts(c, s, answers[0]);
        assert(first.client.agent == c.agent) by {
            reveal(ClientView::one);
            lemma_send_encodes(c, s, answers[0].0, answers[0].1);
        }
        if let SendStepView::More(next) = first.step {
            lemma_run_keeps_client(first.client, next, answers.drop_first());
        }
    }
}

/// What holds of a client after an event that it keeps up with.
spec fn event_done(c: ClientView, e: Event, payload: Seq<u8>, wire: Seq<u8>) -> bool {
    let after = c.after_event(e);
    &&& after.client.wf()
    &&& after.client.agent == c.agent
    &&& after.accepted + after.client.buffer == c.buffer + c.event_packet(e)
    &&& after.client.streams(payload + after.accepted, wire + after.sent)
}

proof fn lemma_event(c: ClientView, e: Event, payload: Seq<u8>, wire: Seq<u8>)
    requires
        c.wf(),
        c.keeps_up(e),
        c.streams(payload, wire),
    ensures
        event_done(c, e, payload, wire),
{
    let after = c.after_event(e);
    let c2 = ClientView { last_action: e.now, ..c };
    assert(c2.streams(payload, wire)) by {
        reveal(ClientView::streams);
    }
    match e.piece {
        Some(m) if m.bytes().len() > 0 => {
            lemma_start_send(c, m, e.now, e.cut);
            if let SendStepView::More(s) = c.start_send(m, e.now, e.cut).1 {
                sending_keeps_owed(c2, s, e.answers);
                lemma_run_keeps_client(c2, s, e.answers);
                sending_keeps_stream(c2, s, e.answers, payload, wire);
                let n = after.accepted.len() as int;
                assert(s.owed().take(n) + s.owed().skip(n) == s.owed());
            }
        },
        None if c.buffer.len() > 0 => {
            client::lemma_start_fits(c2, e.cut);
            let w = BufferWriteView::start(c.buffer, e.cut);
            flushing_keeps_owed(c2, w, e.answers, payload, wire);
            assert(c.buffer + c.event_packet(e) == c.buffer);
        },
        _ => {
            assert(payload + after.accepted == payload);
            assert(wire + after.sent == wire);
            assert(after.accepted + after.client.buffer == c.buffer + c.event_packet(e));
        },
    }
}

/// A client that keeps up misses nothing: what its connection took, and after it what is
/// kept for it, is all that was owed before and then the packets of all the pieces, in
/// order. And what is on the wire stays the framing of the payload that was taken.
pub proof fn session_misses_nothing(
    c: ClientView,
    events: Seq<Event>,
    payload: Seq<u8>,
    wire: Seq<u8>,
)
    requires
        c.wf(),
        c.session_keeps_up(events),
        c.streams(payload, wire),
    ensures
        ({
            let s = c.session(events);
            &&& s.client.wf()
            &&& s.client.agent == c.agent
            &&& s.accepted + s.client.buffer == c.buffer + c.packets(events)
            &&& s.client.streams(payload + s.accepted, wire + s.sent)
        }),
    decreases events.len(),
{
    let s = c.session(events);
    if events.len() == 0 {
        assert(s.accepted + c.buffer == c.buffer + c.packets(events));
        assert(payload + s.accepted == payload);
        assert(wire + s.sent == wire);
    } else {
        let e = events.last();
        let before = c.session(events.drop_last());
        let last = before.client.after_event(e);
        session_misses_nothing(c, events.drop_last(), payload, wire);
        lemma_event(before.client, e, payload + before.accepted, wire + before.sent);
        let p = c.event_packet(e);
        assert(p == before.client.event_packet(e));
        assert(s.accepted + s.client.buffer == before.accepted + (last.accepted
            + last.client.buffer));
        assert(before.accepted + (before.client.buffer + p) == (before.accepted
            + before.client.buffer) + p);
        assert(c.buffer + (c.packets(events.drop_last()) + p) == (c.buffer + c.packets(
            events.drop_last(),
        )) + p);
        assert(payload + before.accepted + last.accepted == payload + s.accepted);
        assert(wire + before.sent + last.sent == wire + s.sent);
    }
}

/// A new listener that keeps up hears what is broadcast: all bytes that went over the
/// wire, read back out of their framing, and after them what is kept for the listener,
/// are the packets of all the pieces, in order.
pub proof fn listener_hears_everything(c: ClientView, events: Seq<Event>)
    requires
        c == ClientView::start(c.agent, c.accept, c.last_action),
        c.session_keeps_up(events),
    ensures
        ({
            let s = c.session(events);
            let heard = match c.framing() {
                Some(f) => f.decode(s.sent),
                None => s.sent,
            };
            heard + s.client.buffer == c.packets(events)
        }),
{
    let s = c.session(events);
    let none = Seq::<u8>::empty();
    assert(c.wf()) by {
        chunker::chunk_header_line();
        websocket::message_header();
        let ch = chunker::chunked();
        let ws = websocket::websocket();
        assert(ch.header.skip(0) == ch.header);
        assert(ws.header.skip(0) == ws.header);
    }
    new_client_streams(c);
    session_misses_nothing(c, events, none, none);
    assert(none + s.accepted == s.accepted);
    assert(none + s.sent == s.sent);
    streams_read_back(s.client, s.accepted, s.sent);
    assert(c.buffer + c.packets(events) == c.packets(events));
}

/// The pieces of events that are not empty.
pub open spec fn audible(events: Seq<Event>) -> Seq<Media>
    decreases events.len(),
{
    if events.len() == 0 {
        Seq::empty()
    } else {
        match events.last().piece {
            Some(m) if m.bytes().len() > 0 => audible(events.drop_last()).push(m),
            _ => audible(events.drop_last()),
        }
    }
}

/// Events can be told from the first on.
pub(crate) proof fn lemma_session_first(c: ClientView, e: Event, events: Seq<Event>)
    requires
        c.succeeds(e),
        c.after_event(e).client.session_succeeds(events),
    ensures
        c.session_succeeds(seq![e] + events),
        c.session(seq![e] + events).client == c.after_event(e).client.session(events).client,
        audible(seq![e] + events) == audible(seq![e]) + audible(events),
    decreases events.len(),
{
    let all = seq![e] + events;
    if events.len() == 0 {
        assert(all == seq![e]);
        assert(all.drop_last() == Seq::<Event>::empty());
        assert(audible(seq![e]) + audible(events) == audible(seq![e]));
        reveal_with_fuel(ClientView::session, 2);
        reveal_with_fuel(ClientView::session_succeeds, 2);
    } else {
        let start = events.drop_last();
        lemma_session_first(c, e, start);
        assert(all.drop_last() == seq![e] + start);
        assert(all.last() == events.last());
        assert(audible(all) == audible(seq![e]) + audible(events));
    }
}

proof fn lemma_audible(c: ClientView, events: Seq<Event>)
    requires
        c.agent == Agent::WebSocket,
        c.session_keeps_up(events),
    ensures
        c.packets(events) == buffer::packets(audible(events)),
        forall|i: int|
            0 <= i < audible(events).len() ==> (#[trigger] audible(events)[i]).body().len()
                <= u64::MAX,
    decreases events.len(),
{
    if events.len() > 0 {
        let before = events.drop_last();
        lemma_audible(c, before);
        match events.last().piece {
            Some(m) if m.bytes().len() > 0 => {
                assert(audible(events).drop_last() == audible(before));
                assert(m.packet().len() >= m.body().len());
            },
            _ => {
                assert(c.packets(before) + Seq::<u8>::empty() == c.packets(before));
            },
        }
    }
}

/// What a WebSocket listener hears can be taken apart again: the packets of all the
/// pieces, read back, are the kinds and bodies of the pieces that are not empty, in
/// order.
pub proof fn websocket_listener_reads_pieces(c: ClientView, events: Seq<Event>)
    requires
        c.agent == Agent::WebSocket,
        c.session_keeps_up(events),
    ensures
        buffer::read_packets(c.packets(events)) == audible(events).map_values(
            |m: Media| (m.tag(), m.body()),
        ),
{
    lemma_audible(c, events);
    buffer::packets_read_back(audible(events));
}

} // verus!
