//! HTTP chunked transfer encoding with chunks of one size.

use vstd::prelude::*;
use vstd::slice::slice_subrange;
use crate::framing::{self, FrameState, Framing, Progress, ConnError};

verus! {

/// Payload bytes in a chunk.
pub const CHUNK_SIZE: usize = 4096;

pub const CR: u8 = 13;

pub const LF: u8 = 10;

/// The digit of `d` in upper case hexadecimal, in ASCII.
pub open spec fn hex_digit(d: nat) -> u8 {
    if d < 10 {
        (0x30 + d) as u8
    } else {
        (0x41 + d - 10) as u8
    }
}

/// `n` in upper case hexadecimal, in ASCII, without leading zeros.
pub open spec fn hex_upper(n: nat) -> Seq<u8>
    decreases n,
{
    if n < 16 {
        seq![hex_digit(n)]
    } else {
        hex_upper(n / 16).push(hex_digit(n % 16))
    }
}

fn format_hex(n: usize) -> (r: Vec<u8>)
    ensures
        r@ == hex_upper(n as nat),
    decreases n,
{
    let d: usize = n % 16;
    let digit: u8 = if d < 10 {
        0x30 + d as u8
    } else {
        0x41 + (d - 10) as u8
    };
    let mut r: Vec<u8> = if n < 16 {
        Vec::new()
    } else {
        format_hex(n / 16)
    };
    r.push(digit);
    assert(n < 16 ==> r@ == seq![hex_digit(n as nat)]);
    r
}

pub open spec fn crlf() -> Seq<u8> {
    seq![CR, LF]
}

/// A chunk: its size in hexadecimal and a line end, the payload, a line end.
pub open spec fn chunked() -> Framing {
    Framing {
        header: hex_upper(CHUNK_SIZE as nat) + crlf(),
        footer: crlf(),
        size: CHUNK_SIZE as nat,
    }
}

/// The line in front of every chunk reads `1000`, which is the chunk size.
pub proof fn chunk_header_line()
    ensures
        chunked().header == seq![0x31u8, 0x30, 0x30, 0x30, 13, 10],
        chunked().wf(),
{
    reveal_with_fuel(hex_upper, 4);
    assert(hex_upper(4096) == seq![0x31u8, 0x30, 0x30, 0x30]);
}

/// A chunk has 4096 bytes of payload, and a line end behind it.
pub proof fn chunk_shape()
    ensures
        chunked().size == 4096,
        chunked().footer == seq![13u8, 10],
{
}

/// What the chunked encoding of a connection sends next.
#[derive(Debug)]
pub enum Chunker {
    /// The rest of the line with the chunk size.
    Header(Vec<u8>),
    /// Payload of a chunk of which so many bytes are sent.
    Body(usize),
    /// The rest of the line end behind a chunk.
    Footer(Vec<u8>),
}

impl View for Chunker {
    type V = FrameState;

    open spec fn view(&self) -> FrameState {
        match *self {
            Chunker::Header(s) => FrameState::Header(s@),
            Chunker::Body(i) => FrameState::Body(i as nat),
            Chunker::Footer(s) => FrameState::Footer(s@),
        }
    }
}

/// The bytes of `s` from `n` on.
pub(crate) fn bytes_from(s: &Vec<u8>, n: usize) -> (r: Vec<u8>)
    requires
        n <= s@.len(),
    ensures
        r@ == s@.skip(n as int),
{
    let part = slice_subrange(s.as_slice(), n, s.len());
    let r = vstd::slice::slice_to_vec(part);
    assert(r@ == s@.skip(n as int));
    r
}

impl Chunker {
    /// Invariant of the encoder.
    pub open spec fn wf(&self) -> bool {
        chunked().allows(self@)
    }

    fn header() -> (r: Vec<u8>)
        ensures
            r@ == chunked().header,
    {
        let mut r = format_hex(CHUNK_SIZE);
        r.push(CR);
        r.push(LF);
        assert(r@ == chunked().header);
        r
    }

    fn footer() -> (r: Vec<u8>)
        ensures
            r@ == chunked().footer,
    {
        let mut r: Vec<u8> = Vec::new();
        r.push(CR);
        r.push(LF);
        assert(r@ == chunked().footer);
        r
    }

    /// An encoder at the start of a stream.
    pub fn new() -> (r: Chunker)
        ensures
            r@ == chunked().start(),
            r.wf(),
    {
        proof {
            chunk_header_line();
        }
        assert(chunked().header.skip(0) == chunked().header);
        Chunker::Header(Chunker::header())
    }

    /// The bytes to write to the connection next, when the first `written` bytes of
    /// `data` are taken.
    pub fn next_write<'a>(&'a self, data: &'a [u8], written: usize) -> (r: &'a [u8])
        requires
            self.wf(),
            written <= data@.len(),
        ensures
            r@ == chunked().request(self@, data@, written as int),
    {
        match self {
            Chunker::Header(s) => s.as_slice(),
            Chunker::Body(i) => {
                let room: usize = CHUNK_SIZE - *i;
                let left: usize = data.len() - written;
                let n: usize = if room <= left {
                    room
                } else {
                    left
                };
                slice_subrange(data, written, written + n)
            },
            Chunker::Footer(s) => s.as_slice(),
        }
    }

    /// Takes in the connection's answer to the write that [`Chunker::next_write`]
    /// gave for `data` and `written`.
    pub fn write(
        &mut self,
        data: &[u8],
        written: usize,
        reply: Result<usize, ConnError>,
    ) -> (r: Progress)
        requires
            old(self).wf(),
            written <= data@.len(),
            framing::reply_fits(reply, chunked().request(old(self)@, data@, written as int).len()),
        ensures
            (final(self)@, r) == chunked().step(old(self)@, written, reply),
            final(self).wf(),
    {
        proof {
            chunk_header_line();
            assert(chunked().header.skip(0) == chunked().header);
            assert(chunked().footer.skip(0) == chunked().footer);
        }
        assert(data.len() == data@.len());
        let n: usize = match reply {
            Ok(n) => n,
            Err(e) => {
                return Progress::Done(
                    if written == 0 {
                        Err(e)
                    } else {
                        Ok(Some(written))
                    },
                );
            },
        };
        let stopped = Progress::Done(
            if written == 0 {
                Ok(None)
            } else {
                Ok(Some(written))
            },
        );
        match self {
            Chunker::Header(s) => {
                if n == s.len() {
                    *self = Chunker::Body(0);
                    Progress::More(written)
                } else {
                    let rest = bytes_from(s, n);
                    assert(rest@ == chunked().header.skip(chunked().header.len() - rest@.len()));
                    *self = Chunker::Header(rest);
                    stopped
                }
            },
            Chunker::Body(i) => {
                let sent: usize = *i + n;
                if sent == CHUNK_SIZE {
                    *self = Chunker::Footer(Chunker::footer());
                    Progress::More(written + n)
                } else {
                    *self = Chunker::Body(sent);
                    Progress::Done(Ok(Some(written + n)))
                }
            },
            Chunker::Footer(s) => {
                if n == s.len() {
                    *self = Chunker::Header(Chunker::header());
                    Progress::More(written)
                } else {
                    let rest = bytes_from(s, n);
                    assert(rest@ == chunked().footer.skip(chunked().footer.len() - rest@.len()));
                    *self = Chunker::Footer(rest);
                    stopped
                }
            },
        }
    }
}

} // verus!
