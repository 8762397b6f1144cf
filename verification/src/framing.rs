//! Framing of a byte stream into blocks of a fixed size.
//!
//! A framing puts a header in front of, and a footer behind, every block of
//! `size` payload bytes. The block that is being filled has its header already
//! sent, so a receiver can read payload before the block is complete.

use vstd::prelude::*;

verus! {

/// Why a connection moved no bytes.
#[derive(Clone, Copy, Debug, PartialEq, Eq, Structural)]
pub enum ConnError {
    /// It can move none at the moment.
    WouldBlock,
    /// It is of no use any more.
    Other,
}

/// Where the encoding of some data stands after the connection answered a write.
///
/// `More(n)`: the first `n` bytes of the data are taken, and another write is due.
/// `Done(r)`: the encoding stops here. `Ok(Some(n))` says that the first `n` bytes
/// of the data are taken, `Ok(None)` that part of a header or footer was taken and
/// no data.
#[derive(Clone, Copy, Debug, PartialEq, Eq)]
pub enum Progress {
    More(usize),
    Done(Result<Option<usize>, ConnError>),
}

/// What stands around each block of `size` payload bytes.
#[verifier::ext_equal]
pub struct Framing {
    pub header: Seq<u8>,
    pub footer: Seq<u8>,
    pub size: nat,
}

/// What a framing sends next: the rest of a header, payload of a block of which
/// some bytes are sent, or the rest of a footer.
#[verifier::ext_equal]
pub enum FrameState {
    Header(Seq<u8>),
    Body(nat),
    Footer(Seq<u8>),
}

pub open spec fn min(a: int, b: int) -> int {
    if a <= b {
        a
    } else {
        b
    }
}

/// `part` is a non-empty end of `whole`.
pub open spec fn unsent_part(part: Seq<u8>, whole: Seq<u8>) -> bool {
    &&& 0 < part.len() <= whole.len()
    &&& part == whole.skip(whole.len() - part.len())
}

impl Framing {
    pub open spec fn wf(self) -> bool {
        &&& self.size > 0
        &&& self.header.len() > 0
    }

    /// The states that the framing can be in.
    pub open spec fn allows(self, st: FrameState) -> bool {
        match st {
            FrameState::Header(s) => unsent_part(s, self.header),
            FrameState::Body(i) => i < self.size,
            FrameState::Footer(s) => unsent_part(s, self.footer),
        }
    }

    /// The state at the start of a stream.
    pub open spec fn start(self) -> FrameState {
        FrameState::Header(self.header)
    }

    /// The state behind a complete block.
    pub open spec fn after_block(self) -> FrameState {
        if self.footer.len() == 0 {
            self.start()
        } else {
            FrameState::Footer(self.footer)
        }
    }

    /// The bytes of the next write, when the first `written` bytes of `data` are taken.
    pub open spec fn request(self, st: FrameState, data: Seq<u8>, written: int) -> Seq<u8> {
        match st {
            FrameState::Header(s) => s,
            FrameState::Body(i) => data.subrange(
                written,
                written + min(self.size - i, data.len() - written),
            ),
            FrameState::Footer(s) => s,
        }
    }

    /// The payload among the bytes of a write of which the connection took `n`.
    pub open spec fn taken(self, st: FrameState, data: Seq<u8>, written: int, n: int) -> Seq<u8> {
        match st {
            FrameState::Body(_) => data.subrange(written, written + n),
            _ => Seq::empty(),
        }
    }

    /// The state after the connection took `n` bytes of a write.
    pub open spec fn advance(self, st: FrameState, n: nat) -> FrameState {
        match st {
            FrameState::Header(s) => if n == s.len() {
                FrameState::Body(0)
            } else {
                FrameState::Header(s.skip(n as int))
            },
            FrameState::Body(i) => if i + n == self.size {
                self.after_block()
            } else {
                FrameState::Body(i + n)
            },
            FrameState::Footer(s) => if n == s.len() {
                self.start()
            } else {
                FrameState::Footer(s.skip(n as int))
            },
        }
    }

    /// Whether `n` bytes taken complete the header, block or footer being sent.
    pub open spec fn completes(self, st: FrameState, n: nat) -> bool {
        match st {
            FrameState::Header(s) => n == s.len(),
            FrameState::Body(i) => i + n == self.size,
            FrameState::Footer(s) => n == s.len(),
        }
    }

    /// State and progress after the connection answered a write.
    ///
    /// Once a block is complete, what stops the encoding later is not reported:
    /// the bytes taken so far are.
    pub open spec fn step(
        self,
        st: FrameState,
        written: usize,
        reply: Result<usize, ConnError>,
    ) -> (FrameState, Progress) {
        match reply {
            Err(e) => (
                st,
                Progress::Done(
                    if written == 0 {
                        Err(e)
                    } else {
                        Ok(Some(written))
                    },
                ),
            ),
            Ok(n) => {
                let now: usize = if st is Body {
                    (written + n) as usize
                } else {
                    written
                };
                (
                    self.advance(st, n as nat),
                    if self.completes(st, n as nat) {
                        Progress::More(now)
                    } else if st is Body || now > 0 {
                        Progress::Done(Ok(Some(now)))
                    } else {
                        Progress::Done(Ok(None))
                    },
                )
            },
        }
    }
}

/// A reply that an answer to a write of `len` bytes can be.
pub open spec fn reply_fits(reply: Result<usize, ConnError>, len: nat) -> bool {
    reply matches Ok(n) ==> n <= len
}

// ---- The bytes on the wire ----

impl Framing {
    /// The complete blocks of `payload`, each with its header and footer.
    pub open spec fn blocks(self, payload: Seq<u8>) -> Seq<u8>
        decreases payload.len(),
    {
        if self.size == 0 || payload.len() < self.size {
            Seq::empty()
        } else {
            self.header + payload.take(self.size as int) + self.footer + self.blocks(
                payload.skip(self.size as int),
            )
        }
    }

    /// What `payload` has behind its last complete block.
    pub open spec fn partial(self, payload: Seq<u8>) -> Seq<u8>
        decreases payload.len(),
    {
        if self.size == 0 || payload.len() < self.size {
            payload
        } else {
            self.partial(payload.skip(self.size as int))
        }
    }

    /// The state fits a stream of which `payload` is taken.
    pub open spec fn agrees(self, st: FrameState, payload: Seq<u8>) -> bool {
        &&& self.allows(st)
        &&& match st {
            FrameState::Header(_) => self.partial(payload).len() == 0,
            FrameState::Body(i) => self.partial(payload).len() == i,
            FrameState::Footer(_) => self.partial(payload).len() == 0 && payload.len() >= self.size,
        }
    }

    /// All bytes that were sent when `payload` is taken and `st` is reached.
    pub open spec fn wire(self, st: FrameState, payload: Seq<u8>) -> Seq<u8> {
        match st {
            FrameState::Header(s) => self.blocks(payload) + self.header.take(
                self.header.len() - s.len(),
            ),
            FrameState::Body(_) => self.blocks(payload) + self.header + self.partial(payload),
            FrameState::Footer(s) => self.blocks(payload).take(
                self.blocks(payload).len() - s.len(),
            ),
        }
    }

    /// The payload that a receiver of `wire` reads.
    pub open spec fn decode(self, wire: Seq<u8>) -> Seq<u8>
        decreases wire.len(),
    {
        let h = self.header.len() as int;
        let block = h + self.size + self.footer.len();
        if self.size == 0 || wire.len() <= h {
            Seq::empty()
        } else if wire.len() <= h + self.size {
            wire.skip(h)
        } else if wire.len() <= block {
            wire.subrange(h, h + self.size)
        } else {
            wire.subrange(h, h + self.size) + self.decode(wire.skip(block))
        }
    }
}

proof fn lemma_append(f: Framing, p: Seq<u8>, q: Seq<u8>)
    requires
        f.wf(),
        f.partial(p).len() + q.len() <= f.size,
    ensures
        f.partial(p).len() < f.size,
        f.partial(p).len() + q.len() < f.size ==> {
            &&& f.blocks(p + q) == f.blocks(p)
            &&& f.partial(p + q) == f.partial(p) + q
        },
        f.partial(p).len() + q.len() == f.size ==> {
            &&& f.blocks(p + q) == f.blocks(p) + f.header + f.partial(p) + q + f.footer
            &&& f.partial(p + q).len() == 0
            &&& (p + q).len() >= f.size
        },
    decreases p.len(),
{
    let n = f.size as int;
    if p.len() < f.size {
        if p.len() + q.len() == f.size {
            assert((p + q).take(n) == p + q);
            assert((p + q).skip(n) == Seq::<u8>::empty());
            reveal_with_fuel(Framing::blocks, 2);
            reveal_with_fuel(Framing::partial, 2);
            assert(f.blocks(p + q) == f.blocks(p) + f.header + f.partial(p) + q + f.footer);
        }
    } else {
        lemma_append(f, p.skip(n), q);
        assert((p + q).take(n) == p.take(n));
        assert((p + q).skip(n) == p.skip(n) + q);
        if f.partial(p).len() + q.len() == f.size {
            let rest = p.skip(n);
            assert(f.blocks(p + q) == f.header + p.take(n) + f.footer + f.blocks(rest + q));
            assert(f.blocks(p + q) == f.blocks(p) + f.header + f.partial(p) + q + f.footer);
        }
    }
}

proof fn lemma_blocks_len(f: Framing, p: Seq<u8>)
    requires
        f.wf(),
        p.len() >= f.size,
    ensures
        f.blocks(p).len() >= f.header.len() + f.size + f.footer.len(),
{
}

proof fn lemma_blocks_end(f: Framing, p: Seq<u8>)
    requires
        f.wf(),
        p.len() >= f.size,
        f.partial(p).len() == 0,
    ensures
        f.blocks(p).len() >= f.footer.len(),
        f.blocks(p).skip(f.blocks(p).len() - f.footer.len()) == f.footer,
    decreases p.len(),
{
    let rest = p.skip(f.size as int);
    let b = f.blocks(p);
    if rest.len() >= f.size {
        lemma_blocks_end(f, rest);
        let tail = f.blocks(rest);
        assert(b.skip(b.len() - f.footer.len()) == tail.skip(tail.len() - f.footer.len()));
    } else {
        assert(f.blocks(rest) == Seq::<u8>::empty());
        assert(b.skip(b.len() - f.footer.len()) == f.footer);
    }
}

/// What goes over the wire is the payload in its framing: if that holds before a
/// write, it holds after any number of bytes of the write were taken, and the
/// payload has grown by the payload bytes among them.
pub proof fn step_keeps_framing(
    f: Framing,
    st: FrameState,
    payload: Seq<u8>,
    data: Seq<u8>,
    written: usize,
    reply: Result<usize, ConnError>,
)
    requires
        f.wf(),
        f.agrees(st, payload),
        written <= data.len() <= usize::MAX,
        reply_fits(reply, f.request(st, data, written as int).len()),
    ensures
        ({
            let next = f.step(st, written, reply).0;
            let n = count(reply);
            let sent = f.request(st, data, written as int).take(n);
            let payload2 = payload + f.taken(st, data, written as int, n);
            &&& f.agrees(next, payload2)
            &&& f.wire(next, payload2) == f.wire(st, payload) + sent
        }),
{
    let req = f.request(st, data, written as int);
    let n = count(reply);
    let sent = req.take(n);
    let next = f.step(st, written, reply).0;
    let q = f.taken(st, data, written as int, n);
    if reply is Err {
        assert(payload + q == payload);
        assert(f.wire(st, payload) + sent == f.wire(st, payload));
    } else {
        match st {
            FrameState::Header(s) => {
                assert(payload + q == payload);
                if n == s.len() {
                    assert(sent == s);
                    assert(f.header.take(f.header.len() - s.len()) + s == f.header);
                    assert(f.partial(payload) == Seq::<u8>::empty());
                    assert(f.wire(next, payload) == f.wire(st, payload) + sent);
                } else {
                    assert(s.skip(n) == f.header.skip(f.header.len() - (s.len() - n)));
                    assert(f.wire(next, payload) == f.wire(st, payload) + sent);
                }
            },
            FrameState::Body(i) => {
                assert(sent == q);
                lemma_append(f, payload, q);
                if i + n == f.size {
                    lemma_blocks_len(f, payload + q);
                    if f.footer.len() == 0 {
                        assert(f.header.skip(0) == f.header);
                        assert(f.wire(next, payload + q) == f.wire(st, payload) + sent);
                    } else {
                        assert(f.footer.skip(0) == f.footer);
                        assert(f.wire(next, payload + q) == f.wire(st, payload) + sent);
                    }
                } else {
                    assert(f.wire(next, payload + q) == f.wire(st, payload) + sent);
                }
            },
            FrameState::Footer(s) => {
                assert(payload + q == payload);
                lemma_blocks_end(f, payload);
                let b = f.blocks(payload);
                assert(b.take(b.len() - s.len()) + s == b);
                if n == s.len() {
                    assert(sent == s);
                    assert(f.header.skip(0) == f.header);
                    assert(f.wire(next, payload) == b);
                } else {
                    assert(s.skip(n) == f.footer.skip(f.footer.len() - (s.len() - n)));
                    assert(f.wire(next, payload) == f.wire(st, payload) + sent);
                }
            },
        }
    }
}

/// What is written next is the rest of a header or footer, or the data from where it is
/// taken on, as much as the block has room for.
pub proof fn request_is_header_data_or_footer(
    f: Framing,
    st: FrameState,
    data: Seq<u8>,
    written: int,
)
    requires
        f.wf(),
        f.allows(st),
        0 <= written <= data.len(),
    ensures
        match st {
            FrameState::Header(s) => f.request(st, data, written) == s,
            FrameState::Footer(s) => f.request(st, data, written) == s,
            FrameState::Body(i) => {
                let r = f.request(st, data, written);
                &&& r == data.skip(written).take(r.len() as int)
                &&& r.len() == data.len() - written || i + r.len() == f.size
                &&& i + r.len() <= f.size
                &&& r.len() <= data.len() - written
            },
        },
{
    let r = f.request(st, data, written);
    if st is Body {
        assert(r == data.skip(written).take(r.len() as int));
    }
}

/// How an answer moves an encoding. An error is handed on, unless data was taken before it,
/// whose length is reported then. A write that is taken in part, and the last of the data,
/// end the encoding with the length of the data that was taken, if any was; a whole header,
/// block or footer lets it go on.
pub proof fn answers_move_an_encoding(
    f: Framing,
    st: FrameState,
    data: Seq<u8>,
    written: usize,
    reply: Result<usize, ConnError>,
)
    requires
        f.wf(),
        f.allows(st),
        written <= data.len() <= usize::MAX,
        reply_fits(reply, f.request(st, data, written as int).len()),
    ensures
        ({
            let (next, progress) = f.step(st, written, reply);
            let whole = f.request(st, data, written as int).len();
            match reply {
                Err(e) => {
                    &&& next == st
                    &&& written == 0 ==> progress == Progress::Done(Err(e))
                    &&& written > 0 ==> progress == Progress::Done(Ok(Some(written)))
                },
                Ok(n) => match st {
                    FrameState::Header(s) => if n == whole {
                        next == FrameState::Body(0) && progress == Progress::More(written)
                    } else {
                        &&& next matches FrameState::Header(rest)
                        &&& s == s.take(n as int) + rest
                        &&& written == 0 ==> progress == Progress::Done(Ok(None))
                        &&& written > 0 ==> progress == Progress::Done(Ok(Some(written)))
                    },
                    FrameState::Footer(s) => if n == whole {
                        &&& next == FrameState::Header(f.header)
                        &&& progress == Progress::More(written)
                    } else {
                        &&& next matches FrameState::Footer(rest)
                        &&& s == s.take(n as int) + rest
                        &&& written == 0 ==> progress == Progress::Done(Ok(None))
                        &&& written > 0 ==> progress == Progress::Done(Ok(Some(written)))
                    },
                    FrameState::Body(i) => if i + n == f.size {
                        &&& f.footer.len() > 0 ==> next == FrameState::Footer(f.footer)
                        &&& f.footer.len() == 0 ==> next == FrameState::Header(f.header)
                        &&& progress == Progress::More((written + n) as usize)
                    } else {
                        &&& next == FrameState::Body(i + n as nat)
                        &&& progress == Progress::Done(Ok(Some((written + n) as usize)))
                    },
                },
            }
        }),
{
    if let Ok(n) = reply {
        match st {
            FrameState::Header(s) => {
                assert(s == s.take(n as int) + s.skip(n as int));
            },
            FrameState::Footer(s) => {
                assert(s == s.take(n as int) + s.skip(n as int));
            },
            _ => {},
        }
    }
}

/// The bytes of a stream: every whole block between its header and its footer, one behind
/// the other, and then the header of the block that is being filled and what is in it.
pub proof fn wire_is_made_of_blocks(f: Framing, block: Seq<u8>, rest: Seq<u8>, part: Seq<u8>)
    requires
        f.wf(),
        block.len() == f.size,
        part.len() < f.size,
    ensures
        f.wire(FrameState::Body(part.len()), part) == f.header + part,
        f.wire(f.start(), Seq::empty()) == Seq::<u8>::empty(),
        f.agrees(FrameState::Body(part.len()), part),
        f.agrees(f.start(), Seq::empty()),
        forall|st: FrameState|
            f.agrees(st, rest) && !(st is Footer) ==> #[trigger] f.wire(st, block + rest)
                == f.header + block + f.footer + f.wire(st, rest) && f.agrees(st, block + rest),
{
    let all = block + rest;
    assert(f.blocks(part) == Seq::<u8>::empty());
    assert(f.header.skip(0) == f.header);
    assert(f.wire(f.start(), Seq::empty()) == Seq::<u8>::empty());
    assert(f.wire(FrameState::Body(part.len()), part) == f.header + part);
    assert(all.take(f.size as int) == block);
    assert(all.skip(f.size as int) == rest);
    assert forall|st: FrameState| f.agrees(st, rest) && !(st is Footer) implies #[trigger] f.wire(
        st,
        all,
    ) == f.header + block + f.footer + f.wire(st, rest) && f.agrees(st, all) by {
        assert(f.blocks(all) == f.header + block + f.footer + f.blocks(rest));
        assert(f.wire(st, all) == f.header + block + f.footer + f.wire(st, rest));
    }
}

// ---- One encoding, from its first write to its end ----

/// What came of the writes of one encoding.
#[verifier::ext_equal]
pub struct Run {
    pub state: FrameState,
    pub progress: Progress,
    /// All bytes that the connection took.
    pub sent: Seq<u8>,
    /// The payload among them.
    pub payload: Seq<u8>,
}

impl Framing {
    /// The writes of one encoding of `data`, answered by `replies` in turn.
    pub open spec fn run(
        self,
        st: FrameState,
        data: Seq<u8>,
        written: usize,
        replies: Seq<Result<usize, ConnError>>,
    ) -> Run
        decreases replies.len(),
    {
        if replies.len() == 0 {
            Run {
                state: st,
                progress: Progress::More(written),
                sent: Seq::empty(),
                payload: Seq::empty(),
            }
        } else {
            let (next, progress) = self.step(st, written, replies[0]);
            let n = count(replies[0]);
            let sent = self.request(st, data, written as int).take(n);
            let payload = self.taken(st, data, written as int, n);
            match progress {
                Progress::Done(_) => Run { state: next, progress, sent, payload },
                Progress::More(w) => {
                    let rest = self.run(next, data, w, replies.drop_first());
                    Run {
                        state: rest.state,
                        progress: rest.progress,
                        sent: sent + rest.sent,
                        payload: payload + rest.payload,
                    }
                },
            }
        }
    }

    /// No reply of the run claims more bytes than its write had.
    pub open spec fn replies_fit(
        self,
        st: FrameState,
        data: Seq<u8>,
        written: usize,
        replies: Seq<Result<usize, ConnError>>,
    ) -> bool
        decreases replies.len(),
    {
        replies.len() > 0 ==> {
            &&& reply_fits(replies[0], self.request(st, data, written as int).len())
            &&& match self.step(st, written, replies[0]) {
                (next, Progress::More(w)) => self.replies_fit(next, data, w, replies.drop_first()),
                _ => true,
            }
        }
    }
}

/// The bytes that a reply says were taken.
pub open spec fn count(reply: Result<usize, ConnError>) -> int {
    match reply {
        Ok(n) => n as int,
        Err(_) => 0,
    }
}

/// However the connection cuts the writes of an encoding, the wire holds the payload
/// in its framing, and the reported count is the length of the payload taken, which is
/// the start of the data. An encoding that reports no count has taken no payload.
pub proof fn run_takes_prefix(
    f: Framing,
    st: FrameState,
    before: Seq<u8>,
    data: Seq<u8>,
    written: usize,
    replies: Seq<Result<usize, ConnError>>,
)
    requires
        f.wf(),
        f.agrees(st, before),
        written <= data.len() <= usize::MAX,
        f.replies_fit(st, data, written, replies),
    ensures
        ({
            let run = f.run(st, data, written, replies);
            &&& f.agrees(run.state, before + run.payload)
            &&& f.wire(run.state, before + run.payload) == f.wire(st, before) + run.sent
            &&& match run.progress {
                Progress::More(w) => {
                    &&& written <= w <= data.len()
                    &&& run.payload == data.subrange(written as int, w as int)
                },
                Progress::Done(Ok(Some(w))) => {
                    &&& written <= w <= data.len()
                    &&& run.payload == data.subrange(written as int, w as int)
                },
                Progress::Done(_) => written == 0 && run.payload.len() == 0,
            }
        }),
    decreases replies.len(),
{
    let run = f.run(st, data, written, replies);
    if replies.len() == 0 {
        assert(before + run.payload == before);
        assert(f.wire(st, before) + run.sent == f.wire(st, before));
        assert(run.payload == data.subrange(written as int, written as int));
    } else {
        step_keeps_framing(f, st, before, data, written, replies[0]);
        let n = count(replies[0]);
        let (next, progress) = f.step(st, written, replies[0]);
        let sent = f.request(st, data, written as int).take(n);
        let payload = f.taken(st, data, written as int, n);
        match progress {
            Progress::More(w) => {
                let rest = f.run(next, data, w, replies.drop_first());
                run_takes_prefix(f, next, before + payload, data, w, replies.drop_first());
                assert(before + payload + rest.payload == before + run.payload);
                assert(f.wire(st, before) + sent + rest.sent == f.wire(st, before) + run.sent);
                match run.progress {
                    Progress::More(v) => {
                        assert(run.payload == data.subrange(written as int, v as int));
                    },
                    Progress::Done(Ok(Some(v))) => {
                        assert(run.payload == data.subrange(written as int, v as int));
                    },
                    _ => {},
                }
            },
            Progress::Done(Ok(Some(v))) => {
                assert(run.payload == data.subrange(written as int, v as int));
            },
            _ => {},
        }
    }
}

impl Framing {
    /// The connection takes every write of an encoding whole.
    pub open spec fn takes_all(
        self,
        st: FrameState,
        data: Seq<u8>,
        written: usize,
        replies: Seq<Result<usize, ConnError>>,
    ) -> bool
        decreases replies.len(),
    {
        replies.len() > 0 ==> {
            &&& replies[0] matches Ok(n) && n == self.request(st, data, written as int).len()
            &&& match self.step(st, written, replies[0]) {
                (next, Progress::More(w)) => self.takes_all(next, data, w, replies.drop_first()),
                _ => true,
            }
        }
    }

    /// The writes of so many complete blocks: for each its payload, its footer if there is
    /// one, and the header that follows.
    pub open spec fn block_writes(self, blocks: int) -> int {
        if self.footer.len() == 0 {
            2 * blocks
        } else {
            3 * blocks
        }
    }

    /// The most writes that it takes to encode `left` bytes.
    pub open spec fn most_writes(self, st: FrameState, left: int) -> int {
        match st {
            FrameState::Body(i) => self.block_writes((i + left) / self.size as int) + 1,
            FrameState::Header(_) => self.block_writes(left / self.size as int) + 2,
            FrameState::Footer(_) => self.block_writes(left / self.size as int) + 3,
        }
    }
}

/// The number of writes of an encoding is bounded by the length of the data, however the
/// connection answers them: with so many answers it is over.
pub proof fn encoding_ends(
    f: Framing,
    st: FrameState,
    data: Seq<u8>,
    written: usize,
    replies: Seq<Result<usize, ConnError>>,
)
    requires
        f.wf(),
        f.allows(st),
        written <= data.len() <= usize::MAX,
        f.replies_fit(st, data, written, replies),
        replies.len() >= f.most_writes(st, data.len() - written),
    ensures
        f.run(st, data, written, replies).progress is Done,
    decreases replies.len(),
{
    let left = data.len() - written;
    let size = f.size as int;
    vstd::arithmetic::div_mod::lemma_div_pos_is_pos(left, size);
    assert(f.header.skip(0) == f.header);
    assert(f.footer.skip(0) == f.footer);
    if let FrameState::Body(i) = st {
        vstd::arithmetic::div_mod::lemma_div_pos_is_pos(i + left, size);
    }
    let (next, progress) = f.step(st, written, replies[0]);
    if let Progress::More(w) = progress {
        if let FrameState::Body(i) = st {
            let n = count(replies[0]);
            assert(i + left == size + (left - n));
            vstd::arithmetic::div_mod::lemma_div_plus_one(left - n, size);
        }
        encoding_ends(f, next, data, w, replies.drop_first());
    }
}

/// A connection that takes everything is given so many writes, and no fewer.
pub proof fn whole_encoding_needs_all_writes(
    f: Framing,
    st: FrameState,
    data: Seq<u8>,
    written: usize,
    replies: Seq<Result<usize, ConnError>>,
)
    requires
        f.wf(),
        f.allows(st),
        written <= data.len() <= usize::MAX,
        f.takes_all(st, data, written, replies),
        replies.len() < f.most_writes(st, data.len() - written),
    ensures
        f.run(st, data, written, replies).progress is More,
    decreases replies.len(),
{
    let left = data.len() - written;
    let size = f.size as int;
    assert(f.header.skip(0) == f.header);
    assert(f.footer.skip(0) == f.footer);
    if replies.len() > 0 {
        let (next, progress) = f.step(st, written, replies[0]);
        if let FrameState::Body(i) = st {
            if i + left < size {
                vstd::arithmetic::div_mod::lemma_basic_div(i + left, size);
            } else {
                vstd::arithmetic::div_mod::lemma_div_plus_one(i + left - size, size);
            }
        }
        if let Progress::More(w) = progress {
            whole_encoding_needs_all_writes(f, next, data, w, replies.drop_first());
        }
    }
}

/// An encoding of which the connection takes everything takes all of the data, says so, and
/// stops within a block.
pub proof fn whole_data_is_taken(
    f: Framing,
    st: FrameState,
    data: Seq<u8>,
    written: usize,
    replies: Seq<Result<usize, ConnError>>,
)
    requires
        f.wf(),
        f.allows(st),
        written <= data.len() <= usize::MAX,
        f.takes_all(st, data, written, replies),
        f.run(st, data, written, replies).progress is Done,
    ensures
        f.replies_fit(st, data, written, replies),
        f.run(st, data, written, replies).state is Body,
        f.run(st, data, written, replies).progress == Progress::Done(
            Ok(Some(data.len() as usize)),
        ),
    decreases replies.len(),
{
    assert(f.header.skip(0) == f.header);
    assert(f.footer.skip(0) == f.footer);
    if let Progress::More(w) = f.step(st, written, replies[0]).1 {
        whole_data_is_taken(f, f.step(st, written, replies[0]).0, data, w, replies.drop_first());
    }
}

/// What an encoding leaves of which the connection takes everything.
proof fn lemma_whole_data(
    f: Framing,
    st: FrameState,
    before: Seq<u8>,
    data: Seq<u8>,
    replies: Seq<Result<usize, ConnError>>,
)
    requires
        f.wf(),
        f.agrees(st, before),
        data.len() <= usize::MAX,
        f.takes_all(st, data, 0, replies),
        f.run(st, data, 0, replies).progress is Done,
    ensures
        f.run(st, data, 0, replies).state == FrameState::Body(f.partial(before + data).len()),
        f.agrees(f.run(st, data, 0, replies).state, before + data),
        f.wire(f.run(st, data, 0, replies).state, before + data) == f.wire(st, before) + f.run(
            st,
            data,
            0,
            replies,
        ).sent,
{
    whole_data_is_taken(f, st, data, 0, replies);
    run_takes_prefix(f, st, before, data, 0, replies);
    assert(data.subrange(0, data.len() as int) == data);
}

/// How data is split between encodings does not matter: where the connection takes
/// everything, `a` and then `b` leave the same bytes on the wire, and the encoder in the
/// same state, as both at once.
#[verifier::spinoff_prover]
pub proof fn splitting_does_not_matter(
    f: Framing,
    st: FrameState,
    before: Seq<u8>,
    a: Seq<u8>,
    b: Seq<u8>,
    first: Seq<Result<usize, ConnError>>,
    second: Seq<Result<usize, ConnError>>,
    both: Seq<Result<usize, ConnError>>,
)
    requires
        f.wf(),
        f.agrees(st, before),
        (a + b).len() <= usize::MAX,
        f.takes_all(st, a, 0, first),
        f.run(st, a, 0, first).progress is Done,
        f.takes_all(f.run(st, a, 0, first).state, b, 0, second),
        f.run(f.run(st, a, 0, first).state, b, 0, second).progress is Done,
        f.takes_all(st, a + b, 0, both),
        f.run(st, a + b, 0, both).progress is Done,
    ensures
        ({
            let one = f.run(st, a, 0, first);
            let two = f.run(one.state, b, 0, second);
            let whole = f.run(st, a + b, 0, both);
            &&& whole.sent == one.sent + two.sent
            &&& whole.state == two.state
        }),
{
    let one = f.run(st, a, 0, first);
    let two = f.run(one.state, b, 0, second);
    let whole = f.run(st, a + b, 0, both);
    lemma_whole_data(f, st, before, a, first);
    lemma_whole_data(f, one.state, before + a, b, second);
    lemma_whole_data(f, st, before, a + b, both);
    assert(before + (a + b) == before + a + b);
    let start = f.wire(st, before);
    assert(start + whole.sent == start + one.sent + two.sent);
    assert(whole.sent == (start + whole.sent).skip(start.len() as int));
    assert(one.sent + two.sent == (start + one.sent + two.sent).skip(start.len() as int));
}

/// A receiver reads back exactly the payload that was taken, wherever in a header,
/// block or footer the stream stands.
pub proof fn decode_reads_payload(f: Framing, st: FrameState, payload: Seq<u8>)
    requires
        f.wf(),
        f.agrees(st, payload),
    ensures
        f.decode(f.wire(st, payload)) == payload,
    decreases payload.len(),
{
    let p = payload;
    let n = f.size as int;
    let h = f.header.len() as int;
    let block = h + n + f.footer.len();
    let w = f.wire(st, p);
    if p.len() < f.size {
        assert(f.blocks(p) == Seq::<u8>::empty());
        match st {
            FrameState::Header(s) => {
                assert(w.len() <= h);
            },
            FrameState::Body(i) => {
                assert(w == f.header + p);
                if i > 0 {
                    assert(w.skip(h) == p);
                }
            },
            FrameState::Footer(s) => {},
        }
    } else {
        let rest = p.skip(n);
        let one = f.header + p.take(n) + f.footer;
        assert(f.blocks(p) == one + f.blocks(rest));
        assert(one.subrange(h, h + n) == p.take(n));
        assert(p.take(n) + rest == p);
        if st is Footer && rest.len() < f.size {
            assert(f.blocks(rest) == Seq::<u8>::empty());
            assert(f.partial(p) == f.partial(rest));
            assert(rest == Seq::<u8>::empty());
            assert(w.len() <= block);
            assert(w.subrange(h, h + n) == p.take(n));
            if w.len() <= h + n {
                assert(w.skip(h) == p.take(n));
            }
        } else {
            decode_reads_payload(f, st, rest);
            if st is Footer {
                lemma_blocks_end(f, rest);
            }
            assert(w == one + f.wire(st, rest));
            assert(w.subrange(h, h + n) == p.take(n));
            assert(w.skip(block) == f.wire(st, rest));
            if w.len() <= h + n {
                assert(w.skip(h) == p.take(n));
            }
            if w.len() <= block {
                assert(f.wire(st, rest) == Seq::<u8>::empty());
                assert(rest == Seq::<u8>::empty());
            }
        }
    }
}

} // verus!
