//! What becomes of a client with each answer of its connection.

use vstd::prelude::*;
use crate::buffer::Media;
use crate::chunker;
use crate::client;
use crate::client::{
    BufferStepView, BufferWriteView, ClientView, FlushStepView, SendStepView, SendingView, WR,
};
use crate::client_laws;
use crate::framing;
use crate::framing::{ConnError, FrameState, Progress};
use crate::request::Agent;
use crate::websocket;

verus! {

// ---- Parts of what happens ----

/// What is kept of too much is its end: at most so many, and as many as there can be.
pub proof fn what_is_kept_is_the_end<T>(s: Seq<T>, n: int)
    requires
        n >= 0,
    ensures
        client::keep_last(s, n).len() == if s.len() <= n {
            s.len() as int
        } else {
            n
        },
        s == s.take(s.len() - client::keep_last(s, n).len()) + client::keep_last(s, n),
{
    let k = client::keep_last(s, n);
    assert(s == s.take(s.len() - k.len()) + k);
}

/// A new client is as it is described, is owed nothing, and its stream is at its start.
pub proof fn new_clients_are_owed_nothing(agent: Agent, accept: Option<Seq<char>>, now: u64)
    ensures
        ({
            let c = ClientView::start(agent, accept, now);
            &&& c.agent == agent
            &&& c.accept == accept
            &&& c.last_action == now
            &&& c.buffer.len() == 0
            &&& c.chunked == FrameState::Header(chunker::chunked().header)
            &&& c.websocket == FrameState::Header(websocket::websocket().header)
        }),
{
}

/// The stream of a WebSocket client comes in messages, that of one that does not take chunks
/// as it is, and that of everyone else in chunks.
pub proof fn streams_are_framed_by_agent(c: ClientView)
    ensures
        match c.agent {
            Agent::NotChunked => c.framing() is None,
            Agent::WebSocket => {
                c.framing() == Some(websocket::websocket()) && c.frame_state() == c.websocket
            },
            Agent::MPV | Agent::MPD | Agent::Other => {
                c.framing() == Some(chunker::chunked()) && c.frame_state() == c.chunked
            },
        },
{
}

/// Without a framing, all that is left is written at once, and all bytes that are taken are
/// payload. With one, the framing says what is written, and where the stream stands then;
/// nothing else about the client changes.
pub proof fn writes_go_through_the_framing(
    c: ClientView,
    data: Seq<u8>,
    written: usize,
    n: int,
    reply: Result<usize, ConnError>,
)
    requires
        written <= data.len() <= usize::MAX,
        reply matches Ok(k) ==> k <= data.len() - written || c.agent != Agent::NotChunked,
    ensures
        c.agent == Agent::NotChunked ==> {
            &&& c.request(data, written as int) == data.skip(written as int)
            &&& c.taken(data, written as int, n) == data.subrange(written as int, written + n)
            &&& c.encode(written, reply).0 == c
            &&& c.encode(written, reply).1 == match reply {
                Ok(k) => Progress::Done(Ok(Some((written + k) as usize))),
                Err(e) => Progress::Done(Err(e)),
            }
        },
        c.agent == Agent::WebSocket ==> {
            let f = websocket::websocket();
            let (st, p) = f.step(c.websocket, written, reply);
            &&& c.request(data, written as int) == f.request(c.websocket, data, written as int)
            &&& c.taken(data, written as int, n) == f.taken(c.websocket, data, written as int, n)
            &&& c.encode(written, reply) == (ClientView { websocket: st, ..c }, p)
        },
        c.agent != Agent::NotChunked && c.agent != Agent::WebSocket ==> {
            let f = chunker::chunked();
            let (st, p) = f.step(c.chunked, written, reply);
            &&& c.request(data, written as int) == f.request(c.chunked, data, written as int)
            &&& c.taken(data, written as int, n) == f.taken(c.chunked, data, written as int, n)
            &&& c.encode(written, reply) == (ClientView { chunked: st, ..c }, p)
        },
{
}

/// What is written next in a sending: the part of the buffer that its flush is at, from where
/// that is taken on, and behind the flush the packet, from where that is taken on.
pub proof fn sendings_write_the_buffer_and_then_the_packet(
    c: ClientView,
    s: SendingView,
    w: BufferWriteView,
)
    ensures
        w.current() == if w.in_tail {
            w.tail
        } else {
            w.head
        },
        s.flush == Some(w) ==> c.send_request(s) == c.request(w.current(), w.written as int)
            && s.current() == w.current() && s.position() == w.written,
        s.flush is None ==> c.send_request(s) == c.request(s.packet, s.written as int)
            && s.current() == s.packet && s.position() == s.written,
{
}

// ---- Answers ----

/// The stream stands in a header or footer.
pub open spec fn between_blocks(c: ClientView) -> bool {
    match c.agent {
        Agent::NotChunked => false,
        Agent::WebSocket => !(c.websocket is Body),
        _ => !(c.chunked is Body),
    }
}

/// The answer completes a header, block or footer, so that more of the data can follow.
pub open spec fn goes_on(c: ClientView, reply: Result<usize, ConnError>) -> bool {
    let st = if c.agent == Agent::WebSocket {
        c.websocket
    } else {
        c.chunked
    };
    &&& c.agent != Agent::NotChunked
    &&& reply matches Ok(n)
    &&& match st {
        FrameState::Header(s) => n == s.len(),
        FrameState::Footer(s) => n == s.len(),
        FrameState::Body(i) => i + n == 4096,
    }
}

/// Nothing of the data was taken, and the answer gives no reason to hope for more: an error
/// other than that the connection is busy, or no bytes where there was payload to take.
pub open spec fn is_hopeless(c: ClientView, written: int, reply: Result<usize, ConnError>) -> bool {
    &&& written == 0
    &&& reply == Err::<usize, _>(ConnError::Other) || reply == Ok::<_, ConnError>(0usize)
        && !between_blocks(c)
}

proof fn lemma_encode(c: ClientView, data: Seq<u8>, written: usize, reply: Result<usize, ConnError>)
    requires
        c.wf(),
        written <= data.len() <= usize::MAX,
        c.framing() is None ==> written == 0,
        framing::reply_fits(reply, c.request(data, written as int).len()),
    ensures
        ({
            let taken = written + c.taken(data, written as int, framing::count(reply)).len();
            let (c2, p) = c.encode(written, reply);
            &&& written <= taken <= data.len()
            &&& c2 == ClientView { chunked: c2.chunked, websocket: c2.websocket, ..c }
            &&& goes_on(c, reply) <==> p is More
            &&& p matches Progress::More(n) ==> n == taken
            &&& p matches Progress::Done(Ok(Some(n))) ==> n == taken && (n == 0 <==> is_hopeless(
                c,
                written as int,
                reply,
            ))
            &&& p == Progress::Done(Ok(None)) ==> taken == 0 && !is_hopeless(
                c,
                written as int,
                reply,
            )
            &&& p matches Progress::Done(Err(e)) ==> {
                &&& taken == 0
                &&& reply == Err::<usize, _>(e)
                &&& is_hopeless(c, written as int, reply) <==> e == ConnError::Other
            }
        }),
{
    client::lemma_encode_bounds(c, data, written, reply);
    chunker::chunk_shape();
    websocket::message_shape();
}

/// What an answer makes of a write of the buffer. The write goes on within its part as long
/// as headers, blocks and footers are completed, and from the head to the tail once the head
/// is taken. It ends with everything taken, with the number of bytes taken, blocked if the
/// connection was busy at once, or failed if the answer is hopeless.
pub proof fn answers_in_a_buffer_write(
    c: ClientView,
    w: BufferWriteView,
    reply: Result<usize, ConnError>,
)
    requires
        c.wf(),
        w.fits(c),
        framing::reply_fits(reply, c.request(w.current(), w.written as int).len()),
    ensures
        ({
            let part = if w.in_tail {
                w.tail
            } else {
                w.head
            };
            let taken = w.written + c.taken(part, w.written as int, framing::count(reply)).len();
            let front = if w.in_tail {
                w.head.len()
            } else {
                0
            };
            let (c2, step) = c.after_write(w, reply);
            &&& c2 == ClientView { chunked: c2.chunked, websocket: c2.websocket, ..c }
            &&& step == if goes_on(c, reply) {
                BufferStepView::More(BufferWriteView { written: taken as usize, ..w })
            } else if is_hopeless(c, w.written as int, reply) {
                BufferStepView::Done(WR::Failed)
            } else if taken == part.len() && taken > 0 && !w.in_tail {
                BufferStepView::More(BufferWriteView { in_tail: true, written: 0, ..w })
            } else if taken == part.len() && taken > 0 {
                BufferStepView::Done(WR::All)
            } else if reply == Err::<usize, _>(ConnError::WouldBlock) && taken == 0 && !w.in_tail {
                BufferStepView::Done(WR::Blocked)
            } else {
                BufferStepView::Done(WR::Inc((front + taken) as usize))
            }
        }),
{
    lemma_encode(c, w.current(), w.written, reply);
}

/// What an answer makes of a flush: as of the write of the buffer. When that is over, with
/// everything taken the flush is done and the buffer empty; when the connection is busy, it
/// is done and the buffer as before; when it fails, it fails. Otherwise what was taken leaves
/// the buffer, and the rest is written anew.
pub proof fn answers_in_a_flush(
    c: ClientView,
    w: BufferWriteView,
    reply: Result<usize, ConnError>,
    cut: int,
)
    requires
        c.wf(),
        w.fits(c),
        framing::reply_fits(reply, c.request(w.current(), w.written as int).len()),
    ensures
        ({
            let (c2, step) = c.after_flush(w, reply, cut);
            &&& c2 == ClientView {
                buffer: c2.buffer,
                chunked: c2.chunked,
                websocket: c2.websocket,
                ..c
            }
            &&& match c.after_write(w, reply).1 {
                BufferStepView::More(next) => {
                    step == FlushStepView::More(next) && c2.buffer == c.buffer
                },
                BufferStepView::Done(WR::All) => {
                    step == FlushStepView::Done(Ok(true)) && c2.buffer.len() == 0
                },
                BufferStepView::Done(WR::Inc(a)) => {
                    &&& a <= c.buffer.len()
                    &&& c.buffer == c.buffer.take(a as int) + c2.buffer
                    &&& step matches FlushStepView::More(next)
                    &&& !next.in_tail
                    &&& next.written == 0
                    &&& next.head == c2.buffer.take(cut)
                    &&& next.tail == c2.buffer.skip(cut)
                },
                BufferStepView::Done(WR::Blocked) => {
                    step == FlushStepView::Done(Ok(false)) && c2.buffer == c.buffer
                },
                BufferStepView::Done(WR::Failed) => {
                    step == FlushStepView::Done(Err(())) && c2.buffer == c.buffer
                },
            }
        }),
{
    client::lemma_write_fits(c, w, reply);
    if let BufferStepView::Done(WR::Inc(a)) = c.after_write(w, reply).1 {
        let left = c.buffer.skip(a as int);
        assert(c.buffer == c.buffer.take(a as int) + left);
    }
}

/// A flush begins with all of the buffer, and there is none if the buffer is empty. Either
/// way the client counts as served.
pub proof fn flushes_begin_with_the_buffer(c: ClientView, now: u64, cut: int)
    requires
        client::is_cut(cut, c.buffer),
    ensures
        ({
            let (c2, step) = c.start_flush(now, cut);
            &&& c2 == ClientView { last_action: now, ..c }
            &&& c.buffer.len() == 0 ==> step == FlushStepView::Done(Ok(true))
            &&& c.buffer.len() > 0 ==> {
                &&& step matches FlushStepView::More(w)
                &&& w.head + w.tail == c.buffer
                &&& w.head.len() == cut
                &&& !w.in_tail
                &&& w.written == 0
                &&& w.owed() == c.buffer
            }
        }),
{
    client::lemma_start_fits(c, cut);
}

/// A sending owes what is in the buffer and behind it the piece: as a packet to a WebSocket
/// client, and as its bytes to any other. Nothing is sent for an empty piece.
pub proof fn sendings_owe_the_buffer_and_the_piece(c: ClientView, m: Media, now: u64, cut: int)
    requires
        c.wf(),
        client::is_cut(cut, c.buffer),
    ensures
        ({
            let (c2, step) = c.start_send(m, now, cut);
            let packet = match c.agent {
                Agent::WebSocket => m.packet(),
                _ => m.bytes(),
            };
            &&& m.bytes().len() == 0 ==> c2 == c && step == SendStepView::Done(Ok(()))
            &&& m.bytes().len() > 0 ==> {
                &&& c2 == ClientView { last_action: now, ..c }
                &&& step matches SendStepView::More(s)
                &&& s.packet == packet
                &&& s.written == 0
                &&& s.owed() == c.buffer + packet
                &&& s.flush is None <==> c.buffer.len() == 0
            }
        }),
{
    client::lemma_start_fits(c, cut);
    if m.bytes().len() > 0 && c.buffer.len() == 0 {
        let p = c.packet(m);
        assert(p.skip(0) == p);
        assert(c.buffer + p == p);
    }
}

/// What an answer makes of a sending.
///
/// While the buffer is flushed, the flush goes on; a flush that is done is followed by the
/// packet, which is put behind the buffer instead if the connection was busy. While the
/// packet is written, the write goes on as long as headers, blocks and footers are completed;
/// then the sending is over, and what was not taken of the packet is kept. Only a hopeless
/// answer makes it fail.
pub proof fn answers_in_a_sending(
    c: ClientView,
    s: SendingView,
    reply: Result<usize, ConnError>,
    cut: int,
)
    requires
        c.wf(),
        s.fits(c),
        framing::reply_fits(reply, c.send_request(s).len()),
    ensures
        ({
            let (c2, step) = c.after_send(s, reply, cut);
            let max = 16384int;
            &&& c2 == ClientView {
                buffer: c2.buffer,
                chunked: c2.chunked,
                websocket: c2.websocket,
                ..c
            }
            &&& match s.flush {
                Some(w) => match c.after_flush(w, reply, cut) {
                    (c1, FlushStepView::More(next)) => {
                        &&& c2 == c1
                        &&& step == SendStepView::More(SendingView { flush: Some(next), ..s })
                    },
                    (c1, FlushStepView::Done(Ok(true))) => {
                        &&& c2 == c1
                        &&& step == SendStepView::More(SendingView { flush: None, ..s })
                    },
                    (c1, FlushStepView::Done(Ok(false))) => {
                        &&& step == SendStepView::Done(Ok(()))
                        &&& c2 == ClientView { buffer: c2.buffer, ..c1 }
                        &&& c2.buffer == client::keep_last(c.buffer + s.packet, max)
                    },
                    (c1, FlushStepView::Done(Err(_))) => {
                        c2 == c1 && step == SendStepView::Done(Err(()))
                    },
                },
                None => {
                    let taken = s.written + c.taken(
                        s.packet,
                        s.written as int,
                        framing::count(reply),
                    ).len();
                    if goes_on(c, reply) {
                        &&& step == SendStepView::More(
                            SendingView { written: taken as usize, ..s },
                        )
                        &&& c2.buffer == c.buffer
                    } else if is_hopeless(c, s.written as int, reply) {
                        step == SendStepView::Done(Err(())) && c2.buffer == c.buffer
                    } else {
                        &&& step == SendStepView::Done(Ok(()))
                        &&& c2.buffer == client::keep_last(s.packet.skip(taken), max)
                    }
                },
            }
        }),
{
    match s.flush {
        Some(w) => {
            answers_in_a_flush(c, w, reply, cut);
        },
        None => {
            lemma_encode(c, s.packet, s.written, reply);
            let taken = s.written + c.taken(
                s.packet,
                s.written as int,
                framing::count(reply),
            ).len();
            assert(c.buffer == Seq::<u8>::empty());
            assert(c.buffer + s.packet.skip(taken) == s.packet.skip(taken));
            assert(c.buffer + s.packet == s.packet);
            assert(s.packet.skip(0) == s.packet);
            if taken == s.packet.len() {
                assert(s.packet.skip(taken) == Seq::<u8>::empty());
            }
        },
    }
}

/// A connection that is busy never makes a sending fail, to whatever client: all that is owed
/// stays owed, and when the sending is over, the buffer holds it, except for the oldest bytes
/// if there are more than 16384.
pub proof fn busy_connections_keep_their_listeners(c: ClientView, s: SendingView, cut: int)
    requires
        c.wf(),
        s.fits(c),
        client::is_cut(cut, c.after_send(s, Err(ConnError::WouldBlock), cut).0.buffer),
    ensures
        match c.after_send(s, Err(ConnError::WouldBlock), cut) {
            (_, SendStepView::More(next)) => next.owed() == s.owed(),
            (c2, SendStepView::Done(r)) => {
                &&& r == Ok::<(), ()>(())
                &&& s.owed().len() <= 16384 ==> c2.buffer == s.owed()
                &&& s.owed().len() > 16384 ==> c2.buffer == s.owed().skip(
                    s.owed().len() - 16384,
                )
            },
        },
{
    let reply = Err::<usize, _>(ConnError::WouldBlock);
    client_laws::step_keeps_owed(c, s, reply, cut);
    answers_in_a_sending(c, s, reply, cut);
    assert(client_laws::keeps_owed(c, s, reply, cut));
    let acc = c.accepted(s, reply);
    assert(s.owed().skip(0) == s.owed());
    match s.flush {
        Some(w) => {
            answers_in_a_buffer_write(c, w, reply);
            answers_in_a_flush(c, w, reply, cut);
            lemma_encode(c, w.current(), w.written, reply);
        },
        None => {
            lemma_encode(c, s.packet, s.written, reply);
        },
    }
    assert(acc == Seq::<u8>::empty());
    if let SendStepView::More(next) = c.after_send(s, reply, cut).1 {
        assert(acc + next.owed() == next.owed());
    }
}

/// A sending fails only if the connection failed, or took nothing where there was payload to
/// take.
pub proof fn only_hopeless_answers_fail(
    c: ClientView,
    s: SendingView,
    reply: Result<usize, ConnError>,
    cut: int,
)
    requires
        c.wf(),
        s.fits(c),
        framing::reply_fits(reply, c.send_request(s).len()),
    ensures
        c.after_send(s, reply, cut).1 == SendStepView::Done(Err(())) <==> is_hopeless(
            c,
            s.position() as int,
            reply,
        ) && !goes_on(c, reply),
{
    answers_in_a_sending(c, s, reply, cut);
    if let Some(w) = s.flush {
        answers_in_a_buffer_write(c, w, reply);
        answers_in_a_flush(c, w, reply, cut);
    }
}

} // verus!
