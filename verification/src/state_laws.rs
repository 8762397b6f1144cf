//! What each operation of the broadcaster does to its connections.

use vstd::prelude::*;
use crate::broadcaster::{BroadcasterView, Job, ListenerView};
use crate::broadcaster_laws;
use crate::client::{BufferWriteView, ClientView, FlushStepView};
use crate::config::Config;
use crate::delivery::DeliveryView;
use crate::framing::ConnError;
use crate::joining::{AdmissionView, CandidateView, JoiningView};
use crate::outside;
use crate::request;
use crate::request::{IncomingView, RequestView};
use crate::response;
use crate::text;

verus! {

/// A new broadcaster has a stream for each that is configured, in order, of which nothing
/// was broadcast, and a mount for each stream without listeners. It has no connections, and
/// is called what it is configured to be called.
pub proof fn new_broadcasters_have_no_connections(
    cfg: Config,
    server: Seq<char>,
    lid: usize,
    tid: usize,
    data_id: usize,
)
    ensures
        ({
            let b = BroadcasterView::start(cfg, server, lid, tid, data_id);
            &&& b.incoming.dom() == Set::<usize>::empty()
            &&& b.clients.dom() == Set::<usize>::empty()
            &&& b.listeners.dom() == Set::<usize>::empty()
            &&& b.streams.len() == cfg.streams@.len()
            &&& b.mounts.len() == cfg.streams@.len()
            &&& forall|m: int|
                0 <= m < cfg.streams@.len() ==> {
                    &&& (#[trigger] b.streams[m]).config == cfg.streams@[m]@
                    &&& b.streams[m].buffer.len() == 0
                    &&& b.streams[m].header.bytes().len() == 0
                    &&& b.streams[m].inline.bytes() == seq![1u8]
                }
            &&& forall|m: int|
                0 <= m < cfg.streams@.len() ==> #[trigger] b.mounts[m] == Set::<usize>::empty()
            &&& b.lid == lid
            &&& b.tid == tid
            &&& b.data_id == data_id
            &&& b.name == cfg.radio.name@
            &&& b.server == server
        }),
{
}

/// A notification for the socket makes the broadcaster accept, one for the timer reap, and
/// one for the channel broadcast, whatever else is known.
pub proof fn own_notifications_come_first(b: BroadcasterView, id: usize)
    ensures
        id == b.lid ==> b.job(id) == Job::Accept,
        id != b.lid && id == b.tid ==> b.job(id) == Job::Reap,
        id != b.lid && id != b.tid && id == b.data_id ==> b.job(id) == Job::Data,
        b.job(id) == Job::Accept ==> id == b.lid,
        b.job(id) == Job::Reap ==> id == b.tid,
        b.job(id) == Job::Data ==> id == b.data_id,
        b.job(id) == Job::Incoming ==> b.incoming.contains_key(id),
        b.job(id) == Job::Client ==> b.clients.contains_key(id),
{
}

/// Connections of which nothing was heard for more than ten seconds are given up, and no
/// others. Listeners that are given up are on no mount and not listed any more; everything
/// else stays.
pub proof fn ten_seconds_of_silence_end_a_connection(b: BroadcasterView, now: u64)
    requires
        b.wf(),
    ensures
        ({
            let gone_incoming = b.idle_incoming(now);
            let gone_clients = b.idle_clients(now);
            let after = b.without(gone_incoming, gone_clients);
            &&& forall|id: usize| #[trigger]
                gone_incoming.contains(id) <==> b.incoming.contains_key(id) && now
                    - b.incoming[id].last_action > 10_000_000_000
            &&& forall|id: usize| #[trigger]
                gone_clients.contains(id) <==> b.clients.contains_key(id) && now
                    - b.clients[id].last_action > 10_000_000_000
            &&& forall|id: usize| #[trigger]
                after.incoming.contains_key(id) <==> b.incoming.contains_key(id)
                    && !gone_incoming.contains(id)
            &&& forall|id: usize| #[trigger]
                after.incoming.contains_key(id) ==> after.incoming[id] == b.incoming[id]
            &&& forall|id: usize| #[trigger]
                after.clients.contains_key(id) <==> b.clients.contains_key(id)
                    && !gone_clients.contains(id)
            &&& forall|id: usize| #[trigger]
                after.clients.contains_key(id) ==> after.clients[id] == b.clients[id]
            &&& forall|id: usize| #[trigger]
                after.listeners.contains_key(id) <==> b.listeners.contains_key(id)
                    && !gone_clients.contains(id)
            &&& forall|id: usize| #[trigger]
                after.listeners.contains_key(id) ==> after.listeners[id] == b.listeners[id]
            &&& after.mounts.len() == b.mounts.len()
            &&& forall|m: int, id: usize|
                0 <= m < b.mounts.len() ==> (#[trigger] after.mounts[m].contains(id)
                    <==> b.mounts[m].contains(id) && !gone_clients.contains(id))
            &&& after.streams == b.streams
        }),
{
}

/// A connection that is accepted, or read from, becomes what it is said to be, and no other
/// connection changes; one that is given up is gone, and no other.
pub proof fn connections_come_and_go_alone(
    b: BroadcasterView,
    id: usize,
    inc: IncomingView,
    c: ClientView,
)
    ensures
        b.with_incoming(id, inc) == (BroadcasterView {
            incoming: b.incoming.insert(id, inc),
            ..b
        }),
        b.without_incoming(id) == (BroadcasterView { incoming: b.incoming.remove(id), ..b }),
        b.with_client(id, c) == (BroadcasterView { clients: b.clients.insert(id, c), ..b }),
        ({
            let after = b.without_client(id);
            &&& after == BroadcasterView {
                clients: b.clients.remove(id),
                listeners: b.listeners.remove(id),
                mounts: after.mounts,
                ..b
            }
            &&& after.mounts.len() == b.mounts.len()
            &&& forall|m: int|
                0 <= m < b.mounts.len() ==> #[trigger] after.mounts[m] == b.mounts[m].remove(id)
        }),
{
}

/// A connection that was accepted has sent nothing, and counts as heard of at that time. No
/// other connection changes.
pub proof fn new_connections_have_sent_nothing(b: BroadcasterView, id: usize, now: u64)
    ensures
        ({
            let after = b.accepted(id, now);
            &&& after.incoming.contains_key(id)
            &&& after.incoming[id].buf.len() == 0
            &&& after.incoming[id].last_action == now
            &&& after == BroadcasterView {
                incoming: b.incoming.insert(id, after.incoming[id]),
                ..b
            }
        }),
{
}

/// A client that is to join is answered by its kind and its handshake, in the name of the
/// station and the server, with what is configured of the stream of its mount: the bytes
/// encode the lines of that response and an empty line.
pub proof fn clients_are_told_of_their_stream(b: BroadcasterView, c: CandidateView)
    requires
        c.fits(b),
    ensures
        vstd::utf8::decode_utf8(b.head_for(c)) == text::joined(
            response::response_lines(
                c.client.agent,
                c.client.accept,
                b.server,
                b.name,
                b.streams[c.mount as int].config,
            ),
        ) + seq!['\r', '\n', '\r', '\n'],
        vstd::utf8::valid_utf8(b.head_for(c)),
{
    let config = b.streams[c.mount as int].config;
    let head = response::response_text(
        c.client.agent,
        c.client.accept,
        b.server,
        b.name,
        config,
    );
    response::head_is_its_lines(c.client.agent, c.client.accept, b.server, b.name, config);
    vstd::utf8::encode_utf8_valid_utf8(head);
    vstd::utf8::encode_utf8_decode_utf8(head);
}

/// A client that becomes a listener is one of its mount and of no other that it was not one
/// of before, and is listed with that mount, its path and its headers.
pub proof fn listeners_are_listed(b: BroadcasterView, c: CandidateView)
    requires
        b.wf(),
        c.fits(b),
    ensures
        ({
            let after = b.joined(c);
            &&& after == BroadcasterView {
                clients: b.clients.insert(c.id, c.client),
                listeners: b.listeners.insert(
                    c.id,
                    ListenerView {
                        mount: b.streams[c.mount as int].config.mount,
                        path: c.path,
                        headers: c.headers,
                    },
                ),
                mounts: after.mounts,
                ..b
            }
            &&& after.mounts.len() == b.mounts.len()
            &&& after.mounts[c.mount as int] == b.mounts[c.mount as int].insert(c.id)
            &&& forall|m: int|
                0 <= m < b.mounts.len() && m != c.mount ==> #[trigger] after.mounts[m]
                    == b.mounts[m]
        }),
{
}

/// A request leads its connection to the first mount that is the end of its location, if
/// there is one. Then the connection may join, as the kind of client that the request says,
/// and is known by the path and the headers of the request. Without a location it is refused,
/// and without a mount it is not known. In any case it is without a request no more, and
/// nothing else changes.
pub proof fn requests_lead_to_mounts(
    b: BroadcasterView,
    id: usize,
    req: RequestView,
    location: Seq<char>,
    now: u64,
)
    requires
        b.streams.len() <= usize::MAX,
    ensures
        b.place(id, req, None, now) == (b.without_incoming(id), AdmissionView::Refused),
        b.place(id, req, Some(location), now).0 == b.without_incoming(id),
        match b.place(id, req, Some(location), now).1 {
            AdmissionView::Accepted(c) => {
                &&& c.id == id
                &&& c.mount < b.streams.len()
                &&& text::is_end(b.streams[c.mount as int].config.mount, location)
                &&& forall|m: int|
                    0 <= m < c.mount ==> !text::is_end(
                        (#[trigger] b.streams[m]).config.mount,
                        location,
                    )
                &&& c.client.agent == req.agent
                &&& c.client.accept == req.accept
                &&& c.client.last_action == now
                &&& c.client.buffer.len() == 0
                &&& c.client == ClientView::start(req.agent, req.accept, now)
                &&& c.path == req.path
                &&& c.headers == req.headers
            },
            AdmissionView::Unknown => forall|m: int|
                0 <= m < b.streams.len() ==> !text::is_end(
                    (#[trigger] b.streams[m]).config.mount,
                    location,
                ),
            _ => false,
        },
{
    broadcaster_laws::path_leads_to_first_mount(b, location);
}

/// A connection that was read from is refused if reading failed or what it sent is no
/// request. It is waited for, with what it sent and the time at which reading began, if that
/// is only the start of a request. A request is placed by the path of the URL that it stands
/// for.
pub proof fn connections_are_judged_by_what_they_sent(
    b: BroadcasterView,
    id: usize,
    began: u64,
    now: u64,
)
    requires
        b.incoming.contains_key(id),
    ensures
        b.after_incoming(id, began, Err(()), now) == (
            b.without_incoming(id),
            AdmissionView::Refused,
        ),
        match request::outcome_of(outside::http_request(b.incoming[id].buf, 1024)) {
            Err(_) => b.after_incoming(id, began, Ok(()), now) == (
                b.without_incoming(id),
                AdmissionView::Refused,
            ),
            Ok(None) => b.after_incoming(id, began, Ok(()), now) == (
                b.with_incoming(
                    id,
                    IncomingView { last_action: began, buf: b.incoming[id].buf },
                ),
                AdmissionView::Waiting,
            ),
            Ok(Some(req)) => b.after_incoming(id, began, Ok(()), now) == b.place(
                id,
                req,
                outside::joined_path("http://localhost/"@, req.path),
                now,
            ),
        },
{
}

/// Writing out the buffer of a listener is a flush of that listener, which counts as served
/// then. A listener is forgotten if and only if the flush fails, and no other listener
/// changes.
pub proof fn listeners_are_flushed_alone(
    b: BroadcasterView,
    id: usize,
    w: BufferWriteView,
    reply: Result<usize, ConnError>,
    now: u64,
    cut: int,
)
    ensures
        ({
            let (c, step) = b.clients[id].start_flush(now, cut);
            b.start_client(id, now, cut) == (
                BroadcasterView { clients: b.clients.insert(id, c), ..b },
                step,
            )
        }),
        ({
            let (c, step) = b.clients[id].after_flush(w, reply, cut);
            &&& b.after_client(id, w, reply, cut).1 == step
            &&& b.after_client(id, w, reply, cut).0 == if step == FlushStepView::Done(Err(())) {
                b.without_client(id)
            } else {
                BroadcasterView { clients: b.clients.insert(id, c), ..b }
            }
        }),
{
}

/// The IDs of the broadcaster's own, its name and that of the server never change.
pub proof fn the_station_stays_the_same(
    b: BroadcasterView,
    id: usize,
    d: DeliveryView,
    c: CandidateView,
    j: JoiningView,
    w: BufferWriteView,
    reply: Result<usize, ConnError>,
    outcome: Result<(), ()>,
    began: u64,
    now: u64,
    cut: int,
)
    ensures
        same_station(b, b.after_incoming(id, began, outcome, now).0),
        same_station(b, b.after_response(c, outcome, now, cut).0),
        same_station(b, b.after_join(j, reply, now, cut).0),
        same_station(b, b.deliver_from(d.mount, d.media, d.ids, 0, now, cut).0),
        same_station(b, b.after_delivery(d, reply, now, cut).0),
        same_station(b, b.start_client(id, now, cut).0),
        same_station(b, b.after_client(id, w, reply, cut).0),
        same_station(b, b.without(b.idle_incoming(now), b.idle_clients(now))),
        same_station(b, b.without_client(id)),
        same_station(b, b.without_incoming(id)),
{
}

/// Nothing about the station itself differs.
pub open spec fn same_station(a: BroadcasterView, b: BroadcasterView) -> bool {
    a.lid == b.lid && a.tid == b.tid && a.data_id == b.data_id && a.name == b.name && a.server
        == b.server
}

} // verus!
