//! WebSocket binary messages of one size.

use vstd::prelude::*;
use vstd::slice::slice_subrange;
use crate::chunker::bytes_from;
use crate::framing::{self, FrameState, Framing, Progress, ConnError};

verus! {

/// Payload bytes in a message.
pub const WEBSOCKET_CHUNK_SIZE: usize = 4096;

/// The first byte of a message: it is final and binary.
pub const FINAL_BINARY: u8 = 0x82;

/// The length byte that announces a length of two bytes.
pub const LENGTH_16: u8 = 126;

/// A message: final and binary, its length in two bytes, most significant first,
/// and the payload, unmasked.
pub open spec fn websocket() -> Framing {
    Framing {
        header: seq![
            FINAL_BINARY,
            LENGTH_16,
            (WEBSOCKET_CHUNK_SIZE / 256) as u8,
            (WEBSOCKET_CHUNK_SIZE % 256) as u8,
        ],
        footer: Seq::empty(),
        size: WEBSOCKET_CHUNK_SIZE as nat,
    }
}

/// Every message header reads `82 7E 10 00`.
pub proof fn message_header()
    ensures
        websocket().header == seq![0x82u8, 0x7e, 0x10, 0x00],
        websocket().wf(),
{
}

/// A message has 4096 bytes of payload, as the two length bytes of its header say, and
/// nothing behind it.
pub proof fn message_shape()
    ensures
        websocket().size == 4096,
        websocket().header.len() == 4,
        websocket().header[2] * 256 + websocket().header[3] == websocket().size,
        websocket().footer.len() == 0,
{
}

/// What the message stream of a connection sends next.
#[derive(Debug)]
pub enum WebSocketChunker {
    /// The rest of a message header.
    Header(Vec<u8>),
    /// Payload of a message of which so many bytes are sent.
    Body(usize),
}

impl View for WebSocketChunker {
    type V = FrameState;

    open spec fn view(&self) -> FrameState {
        match *self {
            WebSocketChunker::Header(s) => FrameState::Header(s@),
            WebSocketChunker::Body(i) => FrameState::Body(i as nat),
        }
    }
}

impl WebSocketChunker {
    /// Invariant of the encoder.
    pub open spec fn wf(&self) -> bool {
        websocket().allows(self@)
    }

    /// An encoder at the start of a stream.
    pub fn new() -> (r: WebSocketChunker)
        ensures
            r@ == websocket().start(),
            r.wf(),
    {
        let mut header: Vec<u8> = Vec::new();
        header.push(FINAL_BINARY);
        header.push(LENGTH_16);
        header.push((WEBSOCKET_CHUNK_SIZE / 256) as u8);
        header.push((WEBSOCKET_CHUNK_SIZE % 256) as u8);
        assert(header@ == websocket().header);
        assert(websocket().header.skip(0) == websocket().header);
        WebSocketChunker::Header(header)
    }

    /// The bytes to write to the connection next, when the first `written` bytes of
    /// `data` are taken.
    pub fn next_write<'a>(&'a self, data: &'a [u8], written: usize) -> (r: &'a [u8])
        requires
            self.wf(),
            written <= data@.len(),
        ensures
            r@ == websocket().request(self@, data@, written as int),
    {
        match self {
            WebSocketChunker::Header(s) => s.as_slice(),
            WebSocketChunker::Body(i) => {
                let room: usize = WEBSOCKET_CHUNK_SIZE - *i;
                let left: usize = data.len() - written;
                let n: usize = if room <= left {
                    room
                } else {
                    left
                };
                slice_subrange(data, written, written + n)
            },
        }
    }

    /// Takes in the connection's answer to the write that
    /// [`WebSocketChunker::next_write`] gave for `data` and `written`.
    pub fn write(
        &mut self,
        data: &[u8],
        written: usize,
        reply: Result<usize, ConnError>,
    ) -> (r: Progress)
        requires
            old(self).wf(),
            written <= data@.len(),
            framing::reply_fits(reply, websocket().request(old(self)@, data@, written as int).len()),
        ensures
            (final(self)@, r) == websocket().step(old(self)@, written, reply),
            final(self).wf(),
    {
        assert(data.len() == data@.len());
        let n: usize = match reply {
            Ok(n) => n,
            Err(e) => {
                return Progress::Done(
                    if written == 0 {
                        Err(e)
                    } else {
                        Ok(Some(written))
                    },
                );
            },
        };
        match self {
            WebSocketChunker::Header(s) => {
                if n == s.len() {
                    *self = WebSocketChunker::Body(0);
                    Progress::More(written)
                } else {
                    let rest = bytes_from(s, n);
                    assert(rest@ == websocket().header.skip(
                        websocket().header.len() - rest@.len(),
                    ));
                    *self = WebSocketChunker::Header(rest);
                    Progress::Done(
                        if written == 0 {
                            Ok(None)
                        } else {
                            Ok(Some(written))
                        },
                    )
                }
            },
            WebSocketChunker::Body(i) => {
                let sent: usize = *i + n;
                if sent == WEBSOCKET_CHUNK_SIZE {
                    *self = WebSocketChunker::new();
                    Progress::More(written + n)
                } else {
                    *self = WebSocketChunker::Body(sent);
                    Progress::Done(Ok(Some(written + n)))
                }
            },
        }
    }
}

} // verus!
