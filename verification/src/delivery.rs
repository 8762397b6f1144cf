//! The broadcast of a piece of audio to the listeners of its mount.

use vstd::prelude::*;
use crate::broadcaster::{Broadcaster, BroadcasterView};
use crate::broadcaster;
use crate::buffer::{Buffer, BufferData, Media};
use crate::client;
use crate::client::{ClientView, SendStep, SendStepView, Sending, SendingView};
use crate::framing;
use crate::framing::ConnError;
use crate::request::Agent;

verus! {

/// A broadcast that waits for an answer of the connection of a listener.
#[derive(Debug)]
pub struct Delivery {
    mount: usize,
    data: BufferData,
    ids: Vec<usize>,
    at: usize,
    send: Sending,
}

#[verifier::ext_equal]
pub struct DeliveryView {
    pub mount: usize,
    pub media: Media,
    /// The listeners of the mount when the broadcast began, in the order of service.
    pub ids: Seq<usize>,
    /// The position of the listener that is served.
    pub at: usize,
    /// What is being sent to it.
    pub send: SendingView,
}

impl View for Delivery {
    type V = DeliveryView;

    closed spec fn view(&self) -> DeliveryView {
        DeliveryView {
            mount: self.mount,
            media: self.data@,
            ids: self.ids@,
            at: self.at,
            send: self.send@,
        }
    }
}

/// A broadcast after an answer of a connection.
#[derive(Debug)]
pub enum DeliveryStep {
    More(Delivery),
    Done,
}

#[verifier::ext_equal]
pub enum DeliveryStepView {
    More(DeliveryView),
    Done,
}

impl View for DeliveryStep {
    type V = DeliveryStepView;

    open spec fn view(&self) -> DeliveryStepView {
        match *self {
            DeliveryStep::More(d) => DeliveryStepView::More(d@),
            DeliveryStep::Done => DeliveryStepView::Done,
        }
    }
}

/// Whether a listener gets a piece while it listens: everyone gets audio, and only some
/// kinds of player get the rest.
pub open spec fn wants(c: ClientView, m: Media) -> bool {
    m is Frame || c.agent == Agent::MPD || c.agent == Agent::WebSocket
}

impl DeliveryView {
    /// The listener that is served.
    pub open spec fn target(self) -> usize {
        self.ids[self.at as int]
    }

    /// The broadcast is one of `b`.
    pub open spec fn fits(self, b: BroadcasterView) -> bool {
        &&& self.mount < b.streams.len()
        &&& self.at < self.ids.len() <= usize::MAX
        &&& self.ids.no_duplicates()
        &&& forall|i: int|
            self.at <= i < self.ids.len() ==> b.clients.contains_key(#[trigger] self.ids[i])
        &&& self.send.fits(b.clients[self.target()])
    }
}

impl BroadcasterView {
    /// The position of the next listener that something is sent to.
    pub open spec fn next_target(self, ids: Seq<usize>, at: int, m: Media) -> int
        decreases ids.len() - at,
    {
        if at >= ids.len() {
            ids.len() as int
        } else if m.bytes().len() > 0 && wants(self.clients[ids[at]], m) {
            at
        } else {
            self.next_target(ids, at + 1, m)
        }
    }

    /// The broadcast goes on with the listeners from position `at` on. When there are no
    /// more, the stream keeps the piece.
    pub open spec fn deliver_from(
        self,
        mount: usize,
        m: Media,
        ids: Seq<usize>,
        at: int,
        now: u64,
        cut: int,
    ) -> (BroadcasterView, DeliveryStepView) {
        let i = self.next_target(ids, at, m);
        if i >= ids.len() {
            (self.store(mount, m), DeliveryStepView::Done)
        } else {
            match self.clients[ids[i]].start_send(m, now, cut) {
                (c, SendStepView::More(send)) => (
                    self.with_client(ids[i], c),
                    DeliveryStepView::More(
                        DeliveryView { mount, media: m, ids, at: i as usize, send },
                    ),
                ),
                // Only for an empty piece, and that has no target.
                (c, SendStepView::Done(_)) => (
                    self.with_client(ids[i], c),
                    DeliveryStepView::Done,
                ),
            }
        }
    }

    /// The broadcast goes on with an answer of the connection of the listener that is
    /// served. A listener to which sending fails is forgotten, and named.
    pub open spec fn after_delivery(
        self,
        d: DeliveryView,
        reply: Result<usize, ConnError>,
        now: u64,
        cut: int,
    ) -> (BroadcasterView, DeliveryStepView, Option<usize>) {
        let id = d.target();
        match self.clients[id].after_send(d.send, reply, cut) {
            (c, SendStepView::More(send)) => (
                self.with_client(id, c),
                DeliveryStepView::More(DeliveryView { send, ..d }),
                None,
            ),
            (c, SendStepView::Done(Ok(_))) => {
                let (b, step) = self.with_client(id, c).deliver_from(
                    d.mount,
                    d.media,
                    d.ids,
                    d.at + 1,
                    now,
                    cut,
                );
                (b, step, None)
            },
            (_, SendStepView::Done(Err(_))) => {
                let (b, step) = self.without_client(id).deliver_from(
                    d.mount,
                    d.media,
                    d.ids,
                    d.at + 1,
                    now,
                    cut,
                );
                (b, step, Some(id))
            },
        }
    }
}

/// The cut falls within the buffer of the listener that is served.
pub open spec fn cut_within(cut: int, b: BroadcasterView, step: DeliveryStepView) -> bool {
    step matches DeliveryStepView::More(d) ==> client::is_cut(cut, b.clients[d.target()].buffer)
}

/// An order in which the listeners of a mount can be served.
pub open spec fn is_order(ids: Seq<usize>, mount: Set<usize>) -> bool {
    ids.no_duplicates() && ids.to_set() == mount
}

impl Broadcaster {
    /// Serves the listeners from position `at` on, up to the next write.
    fn deliver_from(
        &mut self,
        mount: usize,
        data: BufferData,
        ids: Vec<usize>,
        at: usize,
        now: u64,
    ) -> (r: DeliveryStep)
        requires
            old(self).wf(),
            mount < old(self)@.streams.len(),
            at <= ids@.len(),
            ids@.no_duplicates(),
            forall|i: int|
                at <= i < ids@.len() ==> old(self)@.clients.contains_key(#[trigger] ids@[i]),
        ensures
            exists|cut: int|
                cut_within(cut, final(self)@, r@) && #[trigger] old(self)@.deliver_from(
                    mount,
                    data@,
                    ids@,
                    at as int,
                    now,
                    cut,
                ) == (final(self)@, r@),
            final(self).wf(),
            r@ matches DeliveryStepView::More(d) ==> d.fits(final(self)@),
    {
        let ghost before = self@;
        let ghost m = data@;
        let empty = data.frame().len() == 0;
        let is_data = data.is_data();
        let mut i: usize = at;
        while i < ids.len()
            invariant
                at <= i <= ids@.len(),
                self.wf(),
                self@ == before,
                before == old(self)@,
                m == data@,
                empty == (m.bytes().len() == 0),
                is_data == (m is Frame),
                mount < before.streams.len(),
                ids@.no_duplicates(),
                forall|i: int|
                    at <= i < ids@.len() ==> before.clients.contains_key(#[trigger] ids@[i]),
                before.next_target(ids@, at as int, m) == before.next_target(ids@, i as int, m),
            decreases ids@.len() - i,
        {
            let id: usize = ids[i];
            let agent = self.agent_of(id);
            if !empty && (is_data || agent == Agent::MPD || agent == Agent::WebSocket) {
                let mut c = self.take_client(id);
                let ghost c0 = c@;
                assert(c0 == before.clients[ids@[i as int]]);
                let step = c.send_data(&data, now);
                self.put_client(id, c);
                proof {
                    assert(self@ =~~= before.with_client(id, c@));
                    broadcaster::lemma_with_client(before, id, c@);
                }
                let ghost cut = choose|cut: int|
                    client::is_cut(cut, c0.buffer) && #[trigger] c0.start_send(m, now, cut) == (
                        c@,
                        step@,
                    );
                match step {
                    SendStep::More(send) => {
                        let d = Delivery { mount, data, ids, at: i, send };
                        proof {
                            assert(ids.len() == ids@.len());
                            assert(before.deliver_from(mount, m, ids@, at as int, now, cut) == (
                                self@,
                                DeliveryStepView::More(d@),
                            ));
                            assert(cut_within(cut, self@, DeliveryStepView::More(d@)));
                        }
                        return DeliveryStep::More(d);
                    },
                    SendStep::Done(_) => {
                        assert(false);
                    },
                }
            }
            i = i + 1;
        }
        self.store(mount, data);
        assert(before.deliver_from(mount, m, ids@, at as int, now, 0) == (
            self@,
            DeliveryStepView::Done,
        ));
        DeliveryStep::Done
    }

    /// Begins to broadcast a piece of audio.
    pub fn process_buffer(&mut self, buf: Buffer, now: u64) -> (r: DeliveryStep)
        requires
            old(self).wf(),
            buf.mount() < old(self)@.streams.len(),
        ensures
            exists|ids: Seq<usize>, cut: int|
                is_order(ids, old(self)@.mounts[buf.mount() as int]) && cut_within(
                    cut,
                    final(self)@,
                    r@,
                ) && #[trigger] old(self)@.deliver_from(
                    buf.mount(),
                    buf.media(),
                    ids,
                    0,
                    now,
                    cut,
                ) == (final(self)@, r@),
            final(self).wf(),
            r@ matches DeliveryStepView::More(d) ==> d.fits(final(self)@),
    {
        let (mount, data) = buf.into_parts();
        let ids = self.listeners_of(mount);
        proof {
            assert forall|i: int| 0 <= i < ids@.len() implies self@.clients.contains_key(
                #[trigger] ids@[i],
            ) by {
                assert(ids@.to_set().contains(ids@[i]));
                assert(self@.mounts[mount as int].contains(ids@[i]));
            }
            assert(is_order(ids@, self@.mounts[mount as int]));
        }
        self.deliver_from(mount, data, ids, 0, now)
    }

    /// The listener that is served.
    pub fn delivery_target(&self, d: &Delivery) -> (r: usize)
        requires
            d@.fits(self@),
        ensures
            r == d@.target(),
    {
        d.ids[d.at]
    }

    /// The bytes to write next, to the listener that is served.
    pub fn delivery_bytes<'a>(&'a self, d: &'a Delivery) -> (r: &'a [u8])
        requires
            self.wf(),
            d@.fits(self@),
        ensures
            r@ == self@.clients[d@.target()].send_request(d@.send),
    {
        self.sending_bytes(d.ids[d.at], &d.send)
    }

    /// Goes on with the answer to the bytes that [`Broadcaster::delivery_bytes`] gave. A
    /// listener that is named in the result is forgotten, and its connection is to be
    /// taken from the poller and closed.
    pub fn deliver(&mut self, d: Delivery, reply: Result<usize, ConnError>, now: u64) -> (r: (
        DeliveryStep,
        Option<usize>,
    ))
        requires
            old(self).wf(),
            d@.fits(old(self)@),
            framing::reply_fits(
                reply,
                old(self)@.clients[d@.target()].send_request(d@.send).len(),
            ),
        ensures
            exists|cut: int|
                cut_within(cut, final(self)@, r.0@) && #[trigger] old(self)@.after_delivery(
                    d@,
                    reply,
                    now,
                    cut,
                ) == (final(self)@, r.0@, r.1),
            final(self).wf(),
            r.0@ matches DeliveryStepView::More(next) ==> next.fits(final(self)@),
    {
        let ghost before = self@;
        let ghost dv = d@;
        let Delivery { mount, data, ids, at, send } = d;
        let id: usize = ids[at];
        let mut c = self.take_client(id);
        let ghost c0 = c@;
        let step = c.continue_send(send, reply);
        self.put_client(id, c);
        let ghost first = choose|cut: int|
            client::is_cut(cut, c@.buffer) && #[trigger] c0.after_send(dv.send, reply, cut) == (
                c@,
                step@,
            );
        proof {
            assert(self@ =~~= before.with_client(id, c@));
            broadcaster::lemma_with_client(before, id, c@);
        }
        match step {
            SendStep::More(send) => {
                let r = Delivery { mount, data, ids, at, send };
                assert(before.after_delivery(dv, reply, now, first) == (
                    self@,
                    DeliveryStepView::More(r@),
                    None::<usize>,
                ));
                (DeliveryStep::More(r), None)
            },
            SendStep::Done(Ok(_)) => {
                let ghost mid = self@;
                let r = self.deliver_from(mount, data, ids, at + 1, now);
                proof {
                    let cut = choose|cut: int|
                        cut_within(cut, self@, r@) && #[trigger] mid.deliver_from(
                            mount,
                            data@,
                            ids@,
                            at + 1,
                            now,
                            cut,
                        ) == (self@, r@);
                    assert(c0.after_send(dv.send, reply, cut) == c0.after_send(
                        dv.send,
                        reply,
                        first,
                    ));
                    assert(before.after_delivery(dv, reply, now, cut) == (
                        self@,
                        r@,
                        None::<usize>,
                    ));
                }
                (r, None)
            },
            SendStep::Done(Err(_)) => {
                self.remove_client(id);
                let ghost mid = self@;
                assert(mid =~~= before.without_client(id));
                let r = self.deliver_from(mount, data, ids, at + 1, now);
                proof {
                    let cut = choose|cut: int|
                        cut_within(cut, self@, r@) && #[trigger] mid.deliver_from(
                            mount,
                            data@,
                            ids@,
                            at + 1,
                            now,
                            cut,
                        ) == (self@, r@);
                    assert(c0.after_send(dv.send, reply, cut) == c0.after_send(
                        dv.send,
                        reply,
                        first,
                    ));
                    assert(before.after_delivery(dv, reply, now, cut) == (
                        self@,
                        r@,
                        Some(id),
                    ));
                }
                (r, Some(id))
            },
        }
    }
}

} // verus!
