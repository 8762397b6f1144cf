//! The way of a connection from its request to a mount.

use vstd::prelude::*;
use crate::broadcaster::{Broadcaster, BroadcasterView, BASE_URL};
use crate::buffer::Media;
use crate::client;
use crate::client::{Client, ClientView, SendStep, SendStepView, Sending, SendingView};
use crate::framing;
use crate::framing::ConnError;
use crate::outside;
use crate::outside::join_path;
use crate::request;
use crate::request::{Header, HeaderView, IncomingView, Request, RequestView};
use crate::response;

verus! {

/// A client that is to join a mount.
#[derive(Debug)]
pub struct Candidate {
    id: usize,
    mount: usize,
    client: Client,
    path: String,
    headers: Vec<Header>,
}

#[verifier::ext_equal]
pub struct CandidateView {
    pub id: usize,
    pub mount: usize,
    pub client: ClientView,
    pub path: Seq<char>,
    pub headers: Seq<HeaderView>,
}

impl View for Candidate {
    type V = CandidateView;

    closed spec fn view(&self) -> CandidateView {
        CandidateView {
            id: self.id,
            mount: self.mount,
            client: self.client@,
            path: self.path@,
            headers: request::headers_view(self.headers@),
        }
    }
}

impl CandidateView {
    /// The client can join a mount of `b`.
    pub open spec fn fits(self, b: BroadcasterView) -> bool {
        self.mount < b.streams.len() && self.client.wf()
    }
}

/// What becomes of a connection that sent something.
#[derive(Debug)]
pub enum Admission {
    /// The request is not complete.
    Waiting,
    /// The connection is to be taken from the poller and closed.
    Refused,
    /// The request leads to no mount, and the connection is to be closed.
    Unknown,
    /// The client is to be told so, and to join.
    Accepted(Candidate),
}

#[verifier::ext_equal]
pub enum AdmissionView {
    Waiting,
    Refused,
    Unknown,
    Accepted(CandidateView),
}

impl View for Admission {
    type V = AdmissionView;

    open spec fn view(&self) -> AdmissionView {
        match *self {
            Admission::Waiting => AdmissionView::Waiting,
            Admission::Refused => AdmissionView::Refused,
            Admission::Unknown => AdmissionView::Unknown,
            Admission::Accepted(c) => AdmissionView::Accepted(c@),
        }
    }
}

/// A client that is being sent what it missed.
#[derive(Debug)]
pub struct Joining {
    candidate: Candidate,
    at: usize,
    send: Sending,
}

#[verifier::ext_equal]
pub struct JoiningView {
    pub candidate: CandidateView,
    /// The position of the piece that is being sent.
    pub at: usize,
    pub send: SendingView,
}

impl View for Joining {
    type V = JoiningView;

    closed spec fn view(&self) -> JoiningView {
        JoiningView { candidate: self.candidate@, at: self.at, send: self.send@ }
    }
}

impl JoiningView {
    /// The client is joining a mount of `b`.
    pub open spec fn fits(self, b: BroadcasterView) -> bool {
        &&& self.candidate.fits(b)
        &&& self.at < usize::MAX
        &&& self.send.fits(self.candidate.client)
    }
}

/// A client that joins, after an answer of its connection.
#[derive(Debug)]
pub enum JoinStep {
    More(Joining),
    /// It is a listener now.
    Joined,
    /// Its connection is to be closed.
    Failed,
}

#[verifier::ext_equal]
pub enum JoinStepView {
    More(JoiningView),
    Joined,
    Failed,
}

impl View for JoinStep {
    type V = JoinStepView;

    open spec fn view(&self) -> JoinStepView {
        match *self {
            JoinStep::More(j) => JoinStepView::More(j@),
            JoinStep::Joined => JoinStepView::Joined,
            JoinStep::Failed => JoinStepView::Failed,
        }
    }
}

/// The position of the first piece from `at` on that is not empty.
pub open spec fn next_piece(pieces: Seq<Media>, at: int) -> int
    decreases pieces.len() - at,
{
    if at >= pieces.len() {
        pieces.len() as int
    } else if pieces[at].bytes().len() > 0 {
        at
    } else {
        next_piece(pieces, at + 1)
    }
}

impl BroadcasterView {
    /// A connection has sent a request, and `location` is the path that it stands for, if
    /// it stands for one.
    pub open spec fn place(
        self,
        id: usize,
        req: RequestView,
        location: Option<Seq<char>>,
        now: u64,
    ) -> (BroadcasterView, AdmissionView) {
        match location {
            None => (self.without_incoming(id), AdmissionView::Refused),
            Some(path) => (
                self.without_incoming(id),
                match self.mount_of(path) {
                    None => AdmissionView::Unknown,
                    Some(mount) => AdmissionView::Accepted(
                        CandidateView {
                            id,
                            mount,
                            client: ClientView::start(req.agent, req.accept, now),
                            path: req.path,
                            headers: req.headers,
                        },
                    ),
                },
            ),
        }
    }

    /// A connection was read from: that began at `began` and ended with `read`, and it is
    /// `now`.
    pub open spec fn after_incoming(
        self,
        id: usize,
        began: u64,
        read: Result<(), ()>,
        now: u64,
    ) -> (BroadcasterView, AdmissionView) {
        let inc = self.incoming[id];
        let outcome = match read {
            Ok(_) => request::outcome_of(
                outside::http_request(inc.buf, request::REQUEST_HEADERS as nat),
            ),
            Err(_) => Err(()),
        };
        match outcome {
            Err(_) => (self.without_incoming(id), AdmissionView::Refused),
            Ok(None) => (
                self.with_incoming(id, IncomingView { last_action: began, ..inc }),
                AdmissionView::Waiting,
            ),
            Ok(Some(req)) => self.place(
                id,
                req,
                outside::joined_path(BASE_URL@, req.path),
                now,
            ),
        }
    }

    /// The head of the response to a client that is to join.
    pub open spec fn head_for(self, c: CandidateView) -> Seq<u8> {
        vstd::utf8::encode_utf8(
            response::response_text(
                c.client.agent,
                c.client.accept,
                self.server,
                self.name,
                self.streams[c.mount as int].config,
            ),
        )
    }

    /// A client becomes a listener.
    pub open spec fn joined(self, c: CandidateView) -> BroadcasterView {
        self.enlist(c.id, c.mount, c.client, c.path, c.headers)
    }

    /// A client is sent what it missed from position `at` on, and then is a listener.
    pub open spec fn join_from(self, c: CandidateView, at: int, now: u64, cut: int) -> (
        BroadcasterView,
        JoinStepView,
    ) {
        let pieces = self.streams[c.mount as int].backlog(c.client.agent);
        let i = next_piece(pieces, at);
        if i >= pieces.len() {
            (self.joined(c), JoinStepView::Joined)
        } else {
            match c.client.start_send(pieces[i], now, cut) {
                (client, SendStepView::More(send)) => (
                    self,
                    JoinStepView::More(
                        JoiningView {
                            candidate: CandidateView { client, ..c },
                            at: i as usize,
                            send,
                        },
                    ),
                ),
                // Only for an empty piece, and those are passed over.
                (_, SendStepView::Done(_)) => (self, JoinStepView::Failed),
            }
        }
    }

    /// The response was written to a client, or could not be.
    pub open spec fn after_response(
        self,
        c: CandidateView,
        written: Result<(), ()>,
        now: u64,
        cut: int,
    ) -> (BroadcasterView, JoinStepView) {
        match written {
            Ok(_) => self.join_from(c, 0, now, cut),
            Err(_) => (self, JoinStepView::Failed),
        }
    }

    /// A client that joins goes on with an answer of its connection.
    pub open spec fn after_join(
        self,
        j: JoiningView,
        reply: Result<usize, ConnError>,
        now: u64,
        cut: int,
    ) -> (BroadcasterView, JoinStepView) {
        match j.candidate.client.after_send(j.send, reply, cut) {
            (client, SendStepView::More(send)) => (
                self,
                JoinStepView::More(
                    JoiningView {
                        candidate: CandidateView { client, ..j.candidate },
                        send,
                        ..j
                    },
                ),
            ),
            (client, SendStepView::Done(Ok(_))) => self.join_from(
                CandidateView { client, ..j.candidate },
                j.at + 1,
                now,
                cut,
            ),
            (_, SendStepView::Done(Err(_))) => (self, JoinStepView::Failed),
        }
    }
}

/// The cut falls within the buffer of the client that joins.
pub open spec fn cut_within(cut: int, step: JoinStepView) -> bool {
    step matches JoinStepView::More(j) ==> client::is_cut(cut, j.candidate.client.buffer)
}

impl Broadcaster {
    /// Decides about a connection that has sent a request; `location` is the path that
    /// the request stands for, if it stands for one.
    pub fn place(&mut self, id: usize, req: Request, location: Option<String>, now: u64) -> (r:
        Admission)
        requires
            old(self).wf(),
        ensures
            (final(self)@, r@) == old(self)@.place(
                id,
                req@,
                request::text_view(location),
                now,
            ),
            final(self).wf(),
            r@ matches AdmissionView::Accepted(c) ==> c.fits(final(self)@),
    {
        self.forget_incoming(id);
        match location {
            None => Admission::Refused,
            Some(path) => {
                match self.mount_of(path.as_str()) {
                    None => Admission::Unknown,
                    Some(mount) => {
                        let client = Client::new(req.agent, req.accept, now);
                        Admission::Accepted(
                            Candidate { id, mount, client, path: req.path, headers: req.headers },
                        )
                    },
                }
            },
        }
    }

    /// Looks for a request in what a connection sent: `began` is when reading began and
    /// `read` how it ended.
    pub fn process_incoming(
        &mut self,
        id: usize,
        began: u64,
        read: Result<(), ()>,
        now: u64,
    ) -> (r: Admission)
        requires
            old(self).wf(),
            old(self)@.incoming.contains_key(id),
        ensures
            (final(self)@, r@) == old(self)@.after_incoming(id, began, read, now),
            final(self).wf(),
            r@ matches AdmissionView::Accepted(c) ==> c.fits(final(self)@),
    {
        let ghost before = self@;
        let mut inc = self.take_incoming(id);
        assert(inc.wf()) by {
            assert(before.incoming[id].wf());
        }
        match inc.process(began, read) {
            Err(_) => Admission::Refused,
            Ok(None) => {
                self.put_incoming(id, inc);
                assert(self@ =~~= before.with_incoming(id, inc@));
                Admission::Waiting
            },
            Ok(Some(req)) => {
                let location = join_path(BASE_URL, req.path.as_str());
                let ghost rv = req@;
                let r = self.place(id, req, location, now);
                proof {
                    let less = before.without_incoming(id);
                    assert(less.without_incoming(id) =~~= less);
                    assert(less.place(id, rv, request::text_view(location), now) == before.place(
                        id,
                        rv,
                        request::text_view(location),
                        now,
                    ));
                }
                r
            },
        }
    }

    /// The head of the response to a client. All of it is to be written before the client
    /// can join.
    pub fn response(&self, c: &Candidate) -> (r: Vec<u8>)
        requires
            c@.fits(self@),
        ensures
            r@ == vstd::utf8::encode_utf8(
                response::response_text(
                    c@.client.agent,
                    c@.client.accept,
                    self@.server,
                    self@.name,
                    self@.streams[c@.mount as int].config,
                ),
            ),
            r@ == self@.head_for(c@),
    {
        self.response_to(&c.client, c.mount)
    }

    /// Sends a client what it missed from position `at` on, up to the next write.
    fn join_from(&mut self, c: Candidate, at: usize, now: u64) -> (r: JoinStep)
        requires
            old(self).wf(),
            c@.fits(old(self)@),
        ensures
            exists|cut: int|
                cut_within(cut, r@) && #[trigger] old(self)@.join_from(
                    c@,
                    at as int,
                    now,
                    cut,
                ) == (final(self)@, r@),
            final(self).wf(),
            r@ matches JoinStepView::More(j) ==> j.fits(final(self)@),
    {
        let ghost cv = c@;
        let Candidate { id, mount, client, path, headers } = c;
        let agent = client.agent();
        let ghost pieces = self@.streams[mount as int].backlog(agent);
        assert(self@.streams[mount as int].wf());
        let len: usize = self.stream(mount).backlog_len(agent);
        let mut i: usize = at;
        while i < len && self.stream(mount).backlog_piece(agent, i).frame().len() == 0
            invariant
                mount < self@.streams.len(),
                pieces == self@.streams[mount as int].backlog(agent),
                len == pieces.len(),
                next_piece(pieces, at as int) == next_piece(pieces, i as int),
            decreases len - i,
        {
            i = i + 1;
        }
        if i >= len {
            self.enlist(id, mount, client, path, headers);
            assert(cut_within(0, JoinStepView::Joined));
            assert(old(self)@.join_from(cv, at as int, now, 0) == (self@, JoinStepView::Joined));
            return JoinStep::Joined;
        }
        let mut client = client;
        let ghost c0 = client@;
        let step = client.send_data(self.stream(mount).backlog_piece(agent, i), now);
        let ghost cut = choose|cut: int|
            client::is_cut(cut, c0.buffer) && #[trigger] c0.start_send(
                pieces[i as int],
                now,
                cut,
            ) == (client@, step@);
        match step {
            SendStep::More(send) => {
                let candidate = Candidate { id, mount, client, path, headers };
                let r = Joining { candidate, at: i, send };
                assert(cut_within(cut, JoinStepView::More(r@)));
                assert(old(self)@.join_from(cv, at as int, now, cut) == (
                    self@,
                    JoinStepView::More(r@),
                ));
                JoinStep::More(r)
            },
            SendStep::Done(_) => {
                assert(false);
                JoinStep::Failed
            },
        }
    }

    /// Goes on after the response was written to a client, or could not be.
    pub fn join(&mut self, c: Candidate, written: Result<(), ()>, now: u64) -> (r: JoinStep)
        requires
            old(self).wf(),
            c@.fits(old(self)@),
        ensures
            exists|cut: int|
                cut_within(cut, r@) && #[trigger] old(self)@.after_response(
                    c@,
                    written,
                    now,
                    cut,
                ) == (final(self)@, r@),
            final(self).wf(),
            r@ matches JoinStepView::More(j) ==> j.fits(final(self)@),
    {
        let ghost before = self@;
        if written.is_err() {
            assert(cut_within(0, JoinStepView::Failed));
            assert(before.after_response(c@, written, now, 0) == (self@, JoinStepView::Failed));
            return JoinStep::Failed;
        }
        let r = self.join_from(c, 0, now);
        proof {
            let cut = choose|cut: int|
                cut_within(cut, r@) && #[trigger] before.join_from(c@, 0, now, cut) == (
                    self@,
                    r@,
                );
            assert(before.after_response(c@, written, now, cut) == (self@, r@));
        }
        r
    }

    /// The ID of the client that joins.
    pub fn joining_id(&self, j: &Joining) -> (r: usize)
        ensures
            r == j@.candidate.id,
    {
        j.candidate.id
    }

    /// The bytes to write next to a client that joins.
    pub fn join_bytes<'a>(&'a self, j: &'a Joining) -> (r: &'a [u8])
        requires
            j@.fits(self@),
        ensures
            r@ == j@.candidate.client.send_request(j@.send),
    {
        j.candidate.client.send_bytes(&j.send)
    }

    /// Goes on with the answer to the bytes that [`Broadcaster::join_bytes`] gave.
    pub fn continue_join(&mut self, j: Joining, reply: Result<usize, ConnError>, now: u64) -> (r:
        JoinStep)
        requires
            old(self).wf(),
            j@.fits(old(self)@),
            framing::reply_fits(reply, j@.candidate.client.send_request(j@.send).len()),
        ensures
            exists|cut: int|
                cut_within(cut, r@) && #[trigger] old(self)@.after_join(j@, reply, now, cut) == (
                    final(self)@,
                    r@,
                ),
            final(self).wf(),
            r@ matches JoinStepView::More(next) ==> next.fits(final(self)@),
    {
        let ghost before = self@;
        let ghost jv = j@;
        let Joining { candidate, at, send } = j;
        let Candidate { id, mount, client, path, headers } = candidate;
        let mut client = client;
        let ghost c0 = client@;
        let step = client.continue_send(send, reply);
        let ghost first = choose|cut: int|
            client::is_cut(cut, client@.buffer) && #[trigger] c0.after_send(
                jv.send,
                reply,
                cut,
            ) == (client@, step@);
        let candidate = Candidate { id, mount, client, path, headers };
        match step {
            SendStep::More(send) => {
                let r = Joining { candidate, at, send };
                assert(cut_within(first, JoinStepView::More(r@)));
                assert(before.after_join(jv, reply, now, first) == (
                    self@,
                    JoinStepView::More(r@),
                ));
                JoinStep::More(r)
            },
            SendStep::Done(Ok(_)) => {
                let r = self.join_from(candidate, at + 1, now);
                proof {
                    let cut = choose|cut: int|
                        cut_within(cut, r@) && #[trigger] before.join_from(
                            candidate@,
                            at + 1,
                            now,
                            cut,
                        ) == (self@, r@);
                    assert(c0.after_send(jv.send, reply, cut) == c0.after_send(
                        jv.send,
                        reply,
                        first,
                    ));
                    assert(before.after_join(jv, reply, now, cut) == (self@, r@));
                }
                r
            },
            SendStep::Done(Err(_)) => {
                assert(cut_within(first, JoinStepView::Failed));
                assert(before.after_join(jv, reply, now, first) == (self@, JoinStepView::Failed));
                JoinStep::Failed
            },
        }
    }
}

} // verus!
