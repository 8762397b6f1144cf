//! A stream: what it is, and what a listener that joins now has to be told.

use std::collections::VecDeque;
use vstd::prelude::*;
use crate::buffer::{BufferData, Media};
use crate::client;
use crate::config::{StreamConfig, StreamConfigView};
use crate::request::Agent;

verus! {

/// The most pieces of audio that a stream keeps.
pub const BACK_BUFFER_LEN: usize = 256;

/// A stream with the audio that was broadcast last.
#[derive(Debug)]
pub struct Stream {
    config: StreamConfig,
    inline: BufferData,
    header: BufferData,
    buffer: VecDeque<BufferData>,
}

#[verifier::ext_equal]
pub struct StreamView {
    pub config: StreamConfigView,
    /// The latest inline data.
    pub inline: Media,
    /// The latest header.
    pub header: Media,
    /// The latest pieces, oldest first.
    pub buffer: Seq<Media>,
}

/// The contents of pieces.
pub open spec fn media_view(pieces: Seq<BufferData>) -> Seq<Media> {
    pieces.map_values(|d: BufferData| d@)
}

impl View for Stream {
    type V = StreamView;

    closed spec fn view(&self) -> StreamView {
        StreamView {
            config: self.config@,
            inline: self.inline@,
            header: self.header@,
            buffer: media_view(self.buffer@),
        }
    }
}

impl StreamView {
    /// A stream of which nothing was broadcast.
    pub open spec fn start(config: StreamConfigView) -> StreamView {
        StreamView {
            config,
            inline: Media::InlineData(seq![1u8]),
            header: Media::Header(Seq::empty()),
            buffer: Seq::empty(),
        }
    }

    pub open spec fn wf(self) -> bool {
        &&& self.inline is InlineData
        &&& self.header is Header
        &&& self.buffer.len() <= BACK_BUFFER_LEN
    }

    /// The stream after a piece was broadcast.
    pub open spec fn store(self, m: Media) -> StreamView {
        StreamView {
            config: self.config,
            inline: if m is InlineData {
                m
            } else {
                self.inline
            },
            header: if m is Header {
                m
            } else {
                self.header
            },
            buffer: client::keep_last(self.buffer.push(m), BACK_BUFFER_LEN as int),
        }
    }

    /// What a listener that joins is sent, in order.
    pub open spec fn backlog(self, agent: Agent) -> Seq<Media> {
        if agent == Agent::WebSocket {
            seq![self.inline, self.header] + self.buffer
        } else {
            seq![self.header] + self.buffer
        }
    }
}

/// Every newcomer is sent the header, and behind it the whole of what the stream keeps, in
/// order. A WebSocket client is sent the inline data first, and then what everyone is sent.
pub proof fn newcomers_are_sent_all_that_is_kept(s: StreamView, agent: Agent)
    ensures
        s.backlog(agent).skip(s.backlog(agent).len() - s.buffer.len()) == s.buffer,
        s.backlog(agent).len() == s.buffer.len() + if agent == Agent::WebSocket {
            2int
        } else {
            1
        },
        s.backlog(agent)[s.backlog(agent).len() - s.buffer.len() - 1] == s.header,
        agent == Agent::WebSocket ==> s.backlog(agent)[0] == s.inline && forall|other: Agent|
            other != Agent::WebSocket ==> s.backlog(agent).drop_first() == #[trigger] s.backlog(
                other,
            ),
{
    let all = s.backlog(agent);
    assert(all.skip(all.len() - s.buffer.len()) == s.buffer);
    assert forall|other: Agent|
        agent == Agent::WebSocket && other != Agent::WebSocket implies all.drop_first()
        == #[trigger] s.backlog(other) by {
        assert(all.drop_first() == s.backlog(other));
    }
}

/// A stream of which nothing was broadcast keeps nothing: its header is empty, and its
/// inline data is a single one.
pub proof fn new_stream_keeps_nothing(config: StreamConfigView)
    ensures
        StreamView::start(config).config == config,
        StreamView::start(config).buffer.len() == 0,
        StreamView::start(config).header is Header,
        StreamView::start(config).header.bytes().len() == 0,
        StreamView::start(config).inline == Media::InlineData(seq![1u8]),
{
}

/// A piece that was broadcast is the last that a stream keeps. The pieces before it stay in
/// order, the oldest going when there would be more than 256. A header or inline data takes
/// the place of the one before.
pub proof fn storing_a_piece(s: StreamView, m: Media)
    requires
        s.wf(),
    ensures
        s.store(m).config == s.config,
        s.store(m).buffer.len() > 0,
        s.store(m).buffer.last() == m,
        s.buffer.len() < 256 ==> s.store(m).buffer.drop_last() == s.buffer,
        s.buffer.len() == 256 ==> s.store(m).buffer.drop_last() == s.buffer.drop_first(),
        s.buffer.len() <= 256,
        s.store(m).header == match m {
            Media::Header(_) => m,
            _ => s.header,
        },
        s.store(m).inline == match m {
            Media::InlineData(_) => m,
            _ => s.inline,
        },
{
    assert(s.buffer.push(m).drop_last() == s.buffer);
    if s.buffer.len() == 256 {
        assert(s.store(m).buffer.drop_last() == s.buffer.drop_first());
    }
}

// ---- What a stream keeps ----

impl StreamView {
    /// The stream after pieces were broadcast in turn.
    pub open spec fn store_all(self, pieces: Seq<Media>) -> StreamView
        decreases pieces.len(),
    {
        if pieces.len() == 0 {
            self
        } else {
            self.store_all(pieces.drop_last()).store(pieces.last())
        }
    }
}

/// The last of the pieces that is a header, or `otherwise` if none is.
pub open spec fn last_header(pieces: Seq<Media>, otherwise: Media) -> Media
    decreases pieces.len(),
{
    if pieces.len() == 0 {
        otherwise
    } else if pieces.last() is Header {
        pieces.last()
    } else {
        last_header(pieces.drop_last(), otherwise)
    }
}

/// The last of the pieces that is inline data, or `otherwise` if none is.
pub open spec fn last_inline(pieces: Seq<Media>, otherwise: Media) -> Media
    decreases pieces.len(),
{
    if pieces.len() == 0 {
        otherwise
    } else if pieces.last() is InlineData {
        pieces.last()
    } else {
        last_inline(pieces.drop_last(), otherwise)
    }
}

/// However many pieces are broadcast, the stream keeps the last of them, in order, and
/// beside them the latest header and the latest inline data, however long ago they came.
pub proof fn stream_keeps_latest(s: StreamView, pieces: Seq<Media>)
    requires
        s.wf(),
    ensures
        s.store_all(pieces).buffer == client::keep_last(
            s.buffer + pieces,
            BACK_BUFFER_LEN as int,
        ),
        s.store_all(pieces).header == last_header(pieces, s.header),
        s.store_all(pieces).inline == last_inline(pieces, s.inline),
        s.store_all(pieces).config == s.config,
        s.store_all(pieces).wf(),
    decreases pieces.len(),
{
    if pieces.len() == 0 {
        assert(s.buffer + pieces == s.buffer);
    } else {
        let before = pieces.drop_last();
        stream_keeps_latest(s, before);
        let all = s.buffer + before;
        assert(s.buffer + pieces == all.push(pieces.last()));
        let n = BACK_BUFFER_LEN as int;
        assert(client::keep_last(client::keep_last(all, n).push(pieces.last()), n)
            == client::keep_last(all.push(pieces.last()), n));
    }
}

impl Stream {
    pub fn new(config: StreamConfig) -> (r: Stream)
        ensures
            r@ == StreamView::start(config@),
    {
        let mut one: Vec<u8> = Vec::new();
        one.push(1);
        let r = Stream {
            config,
            inline: BufferData::InlineData(one),
            header: BufferData::Header(Vec::new()),
            buffer: VecDeque::with_capacity(BACK_BUFFER_LEN),
        };
        proof {
            assert(one@ == seq![1u8]);
            assert(r@.buffer == Seq::<Media>::empty());
            assert(r@.header == Media::Header(Seq::empty()));
            assert(r@.inline == Media::InlineData(seq![1u8]));
        }
        r
    }

    pub fn config(&self) -> (r: &StreamConfig)
        ensures
            r@ == self@.config,
    {
        &self.config
    }

    /// Keeps a piece that was broadcast.
    pub fn store(&mut self, data: BufferData)
        ensures
            final(self)@ == old(self)@.store(data@),
    {
        let ghost m = data@;
        if data.is_header() {
            self.header = data.clone();
        }
        if data.is_inline() {
            self.inline = data.clone();
        }
        let ghost all = self@.buffer.push(m);
        self.buffer.push_back(data);
        assert(self@.buffer == all);
        assert(all.skip(0) == all);
        let ghost before = self@;
        while self.buffer.len() > BACK_BUFFER_LEN
            invariant
                self@ == (StreamView { buffer: self@.buffer, ..before }),
                self@.buffer.len() <= all.len(),
                self@.buffer == all.skip(all.len() - self@.buffer.len()),
                all.len() <= BACK_BUFFER_LEN ==> self@.buffer.len() == all.len(),
                all.len() > BACK_BUFFER_LEN ==> self@.buffer.len() >= BACK_BUFFER_LEN,
            decreases self@.buffer.len(),
        {
            let ghost pieces = self@.buffer;
            self.buffer.pop_front();
            assert(self@.buffer == pieces.skip(1));
            assert(self@.buffer == all.skip(all.len() - self@.buffer.len()));
        }
    }

    /// How many pieces a listener that joins is sent.
    pub fn backlog_len(&self, agent: Agent) -> (r: usize)
        requires
            self@.wf(),
        ensures
            r == self@.backlog(agent).len(),
    {
        let n: usize = self.buffer.len();
        assert(n == self@.buffer.len());
        if agent == Agent::WebSocket {
            n + 2
        } else {
            n + 1
        }
    }

    /// The piece that a listener that joins is sent at position `i`.
    pub fn backlog_piece(&self, agent: Agent, i: usize) -> (r: &BufferData)
        requires
            i < self@.backlog(agent).len(),
        ensures
            r@ == self@.backlog(agent)[i as int],
    {
        let at: usize = if agent == Agent::WebSocket {
            if i == 0 {
                return &self.inline;
            }
            i - 1
        } else {
            i
        };
        if at == 0 {
            &self.header
        } else {
            let r = &self.buffer[at - 1];
            assert(r@ == self@.buffer[at - 1]);
            r
        }
    }
}

} // verus!
