//! What holds of the broadcaster as a whole, whatever happens to it.

use vstd::prelude::*;
use crate::broadcaster;
use crate::broadcaster::{BroadcasterView, Job};
use crate::buffer::Media;
use crate::client::{BufferWriteView, ClientView};
use crate::config::Config;
use crate::delivery;
use crate::delivery::DeliveryView;
use crate::framing::ConnError;
use crate::joining::{AdmissionView, CandidateView, JoinStepView, JoiningView};
use crate::request::{HeaderView, IncomingView};
use crate::stream::StreamView;
use crate::text;

verus! {

// ---- Finding a mount ----

/// A path leads to the first mount that is the end of it, and to none if no mount is.
pub proof fn path_leads_to_first_mount(b: BroadcasterView, path: Seq<char>)
    requires
        b.streams.len() <= usize::MAX,
    ensures
        match b.mount_of(path) {
            Some(mount) => {
                &&& mount < b.streams.len()
                &&& text::is_end(b.streams[mount as int].config.mount, path)
                &&& forall|m: int|
                    0 <= m < mount ==> !text::is_end((#[trigger] b.streams[m]).config.mount, path)
            },
            None => forall|m: int|
                0 <= m < b.streams.len() ==> !text::is_end(
                    (#[trigger] b.streams[m]).config.mount,
                    path,
                ),
        },
{
    lemma_mount_from(b.streams, path, 0);
}

proof fn lemma_mount_from(streams: Seq<StreamView>, path: Seq<char>, from: int)
    requires
        0 <= from <= streams.len() <= usize::MAX,
    ensures
        match broadcaster::mount_from(streams, path, from) {
            Some(mount) => {
                &&& from <= mount < streams.len()
                &&& text::is_end(streams[mount as int].config.mount, path)
                &&& forall|m: int|
                    from <= m < mount ==> !text::is_end((#[trigger] streams[m]).config.mount, path)
            },
            None => forall|m: int|
                from <= m < streams.len() ==> !text::is_end(
                    (#[trigger] streams[m]).config.mount,
                    path,
                ),
        },
    decreases streams.len() - from,
{
    if from < streams.len() && !text::is_end(streams[from].config.mount, path) {
        lemma_mount_from(streams, path, from + 1);
    }
}

// ---- Who a connection is ----

/// A connection is one thing at a time. It is not both a listener and without a request,
/// it listens to one mount, and that is the mount that it is listed with.
pub open spec fn exclusive(b: BroadcasterView) -> bool {
    &&& forall|id: usize| #[trigger] b.incoming.contains_key(id) ==> !b.clients.contains_key(id)
    &&& forall|m: int, n: int, id: usize|
        0 <= m < b.mounts.len() && 0 <= n < b.mounts.len() && #[trigger] b.mounts[m].contains(id)
            && #[trigger] b.mounts[n].contains(id) ==> m == n
    &&& forall|m: int, id: usize|
        0 <= m < b.mounts.len() && #[trigger] b.mounts[m].contains(id) ==> b.listeners[id].mount
            == b.streams[m].config.mount
}

/// At the start every connection is one thing at a time, as there is none.
pub proof fn start_is_exclusive(
    cfg: Config,
    server: Seq<char>,
    lid: usize,
    tid: usize,
    data_id: usize,
)
    ensures
        exclusive(BroadcasterView::start(cfg, server, lid, tid, data_id)),
{
}

/// Every connection stays one thing at a time when a connection is accepted, provided
/// that the poller does not use the ID of a listener for it.
pub proof fn accepting_keeps_exclusive(b: BroadcasterView, id: usize, inc: IncomingView)
    requires
        exclusive(b),
        !b.clients.contains_key(id),
    ensures
        exclusive(b.with_incoming(id, inc)),
        exclusive(b.without_incoming(id)),
{
}

proof fn lemma_with_client(b: BroadcasterView, id: usize, c: ClientView)
    requires
        exclusive(b),
        b.clients.contains_key(id),
    ensures
        exclusive(b.with_client(id, c)),
{
}

proof fn lemma_without_client(b: BroadcasterView, id: usize)
    requires
        exclusive(b),
    ensures
        exclusive(b.without_client(id)),
{
    let after = b.without_client(id);
    assert forall|m: int, x: usize|
        0 <= m < after.mounts.len() && #[trigger] after.mounts[m].contains(x) implies x != id
        && b.mounts[m].contains(x) by {}
}

/// Every connection stays one thing at a time when inactive connections are given up, or
/// any others.
pub proof fn reaping_keeps_exclusive(
    b: BroadcasterView,
    incoming: Set<usize>,
    clients: Set<usize>,
)
    requires
        exclusive(b),
        b.wf(),
    ensures
        exclusive(b.without(incoming, clients)),
{
    let after = b.without(incoming, clients);
    assert forall|m: int, x: usize|
        0 <= m < after.mounts.len() && #[trigger] after.mounts[m].contains(x) implies
        b.mounts[m].contains(x) && after.listeners[x] == b.listeners[x] by {
        assert(b.mounts[m].contains(x));
        assert(b.clients.contains_key(x));
        assert(after.listeners.contains_key(x));
    }
    assert forall|x: usize| #[trigger] after.incoming.contains_key(x) implies
        !after.clients.contains_key(x) by {
        assert(b.incoming.contains_key(x));
    }
}

/// Every connection stays one thing at a time while the buffer of a listener is written
/// out.
pub proof fn flushing_keeps_exclusive(
    b: BroadcasterView,
    id: usize,
    w: BufferWriteView,
    reply: Result<usize, ConnError>,
    now: u64,
    cut: int,
)
    requires
        exclusive(b),
        b.clients.contains_key(id),
    ensures
        exclusive(b.start_client(id, now, cut).0),
        exclusive(b.after_client(id, w, reply, cut).0),
{
    lemma_with_client(b, id, b.clients[id].start_flush(now, cut).0);
    lemma_with_client(b, id, b.clients[id].after_flush(w, reply, cut).0);
    lemma_without_client(b, id);
}

proof fn lemma_store(b: BroadcasterView, mount: usize, m: Media)
    requires
        exclusive(b),
        b.mounts.len() == b.streams.len(),
        mount < b.streams.len(),
    ensures
        exclusive(b.store(mount, m)),
{
    let after = b.store(mount, m);
    assert forall|k: int| 0 <= k < b.streams.len() implies (
    #[trigger] after.streams[k]).config.mount == b.streams[k].config.mount by {}
    assert forall|k: int, x: usize|
        0 <= k < after.mounts.len() && #[trigger] after.mounts[k].contains(
            x,
        ) implies after.listeners[x].mount == after.streams[k].config.mount by {
        assert(b.mounts[k].contains(x));
    }
}

proof fn lemma_deliver_from(
    b: BroadcasterView,
    mount: usize,
    m: Media,
    ids: Seq<usize>,
    at: int,
    now: u64,
    cut: int,
)
    requires
        exclusive(b),
        b.mounts.len() == b.streams.len(),
        mount < b.streams.len(),
        0 <= at,
        forall|i: int| at <= i < ids.len() ==> b.clients.contains_key(#[trigger] ids[i]),
    ensures
        exclusive(b.deliver_from(mount, m, ids, at, now, cut).0),
{
    lemma_next_target(b, ids, at, m);
    let i = b.next_target(ids, at, m);
    if i >= ids.len() {
        lemma_store(b, mount, m);
    } else {
        lemma_with_client(b, ids[i], b.clients[ids[i]].start_send(m, now, cut).0);
    }
}

proof fn lemma_next_target(b: BroadcasterView, ids: Seq<usize>, at: int, m: Media)
    requires
        0 <= at,
    ensures
        b.next_target(ids, at, m) < ids.len() ==> at <= b.next_target(ids, at, m),
    decreases ids.len() - at,
{
    if at < ids.len() {
        lemma_next_target(b, ids, at + 1, m);
    }
}

/// Every connection stays one thing at a time when a broadcast begins.
pub proof fn broadcasting_keeps_exclusive(
    b: BroadcasterView,
    mount: usize,
    m: Media,
    ids: Seq<usize>,
    now: u64,
    cut: int,
)
    requires
        exclusive(b),
        b.wf(),
        mount < b.streams.len(),
        delivery::is_order(ids, b.mounts[mount as int]),
    ensures
        exclusive(b.deliver_from(mount, m, ids, 0, now, cut).0),
{
    assert forall|i: int| 0 <= i < ids.len() implies b.clients.contains_key(#[trigger] ids[i]) by {
        assert(ids.to_set().contains(ids[i]));
        assert(b.mounts[mount as int].contains(ids[i]));
    }
    lemma_deliver_from(b, mount, m, ids, 0, now, cut);
}

/// Every connection stays one thing at a time while a piece is broadcast.
pub proof fn delivering_keeps_exclusive(
    b: BroadcasterView,
    d: DeliveryView,
    reply: Result<usize, ConnError>,
    now: u64,
    cut: int,
)
    requires
        exclusive(b),
        b.wf(),
        d.fits(b),
    ensures
        exclusive(b.after_delivery(d, reply, now, cut).0),
{
    let id = d.target();
    let (c, _) = b.clients[id].after_send(d.send, reply, cut);
    lemma_with_client(b, id, c);
    lemma_without_client(b, id);
    assert forall|i: int| d.at + 1 <= i < d.ids.len() implies {
        &&& b.with_client(id, c).clients.contains_key(#[trigger] d.ids[i])
        &&& b.without_client(id).clients.contains_key(d.ids[i])
    } by {
        assert(d.ids[i] != id);
    }
    lemma_deliver_from(b.with_client(id, c), d.mount, d.media, d.ids, d.at + 1, now, cut);
    lemma_deliver_from(b.without_client(id), d.mount, d.media, d.ids, d.at + 1, now, cut);
}

/// Every connection stays one thing at a time when a request is looked for, and a client
/// that may join is neither without a request nor a listener any more.
pub proof fn admission_keeps_exclusive(
    b: BroadcasterView,
    id: usize,
    began: u64,
    read: Result<(), ()>,
    now: u64,
)
    requires
        exclusive(b),
        b.incoming.contains_key(id),
    ensures
        exclusive(b.after_incoming(id, began, read, now).0),
        b.after_incoming(id, began, read, now).1 matches AdmissionView::Accepted(c) ==> {
            &&& c.id == id
            &&& is_new(b.after_incoming(id, began, read, now).0, c.id)
        },
{
    accepting_keeps_exclusive(b, id, IncomingView { last_action: began, ..b.incoming[id] });
}

/// The ID is that of no connection.
pub open spec fn is_new(b: BroadcasterView, id: usize) -> bool {
    !b.incoming.contains_key(id) && !b.clients.contains_key(id)
}

proof fn lemma_enlist(
    b: BroadcasterView,
    id: usize,
    mount: usize,
    c: ClientView,
    path: Seq<char>,
    headers: Seq<HeaderView>,
)
    requires
        exclusive(b),
        b.wf(),
        mount < b.streams.len(),
        is_new(b, id),
    ensures
        exclusive(b.enlist(id, mount, c, path, headers)),
{
    let after = b.enlist(id, mount, c, path, headers);
    assert forall|m: int, x: usize|
        0 <= m < after.mounts.len() && #[trigger] after.mounts[m].contains(x) implies if x == id {
        m == mount
    } else {
        b.mounts[m].contains(x)
    } by {
        if x == id && m != mount {
            assert(b.mounts[m].contains(id));
        }
    }
}

/// Every connection stays one thing at a time when the response was written to a new
/// client, or could not be.
pub proof fn responding_keeps_exclusive(
    b: BroadcasterView,
    c: CandidateView,
    written: Result<(), ()>,
    now: u64,
    cut: int,
)
    requires
        exclusive(b),
        b.wf(),
        c.fits(b),
        is_new(b, c.id),
    ensures
        exclusive(b.after_response(c, written, now, cut).0),
{
    lemma_enlist(b, c.id, c.mount, c.client, c.path, c.headers);
}

/// Every connection stays one thing at a time while a new client joins.
pub proof fn joining_keeps_exclusive(
    b: BroadcasterView,
    j: JoiningView,
    reply: Result<usize, ConnError>,
    now: u64,
    cut: int,
)
    requires
        exclusive(b),
        b.wf(),
        j.fits(b),
        is_new(b, j.candidate.id),
    ensures
        exclusive(b.after_join(j, reply, now, cut).0),
        b.after_join(j, reply, now, cut).1 matches JoinStepView::More(next) ==> next.candidate.id
            == j.candidate.id,
{
    let c = j.candidate;
    let (client, _) = c.client.after_send(j.send, reply, cut);
    lemma_enlist(b, c.id, c.mount, client, c.path, c.headers);
}

/// Every connection is looked after: a notification for one without a request makes it
/// read from, and one for a listener makes it written to, unless the poller uses the ID
/// for something else.
pub proof fn every_connection_has_a_job(b: BroadcasterView, id: usize)
    requires
        exclusive(b),
        id != b.lid,
        id != b.tid,
        id != b.data_id,
    ensures
        b.job(id) == Job::Incoming <==> b.incoming.contains_key(id),
        b.job(id) == Job::Client <==> b.clients.contains_key(id),
        b.job(id) == Job::Unknown <==> is_new(b, id),
{
}

// ---- Coming and going ----

/// Once inactive connections are given up, all that are left are active, and the active
/// ones are as they were.
pub proof fn reaping_leaves_the_active(b: BroadcasterView, now: u64)
    ensures
        ({
            let after = b.without(b.idle_incoming(now), b.idle_clients(now));
            &&& forall|id: usize| #[trigger]
                after.incoming.contains_key(id) <==> b.incoming.contains_key(id)
                    && !broadcaster::is_idle(b.incoming[id].last_action, now)
            &&& forall|id: usize| #[trigger]
                after.incoming.contains_key(id) ==> after.incoming[id] == b.incoming[id]
            &&& forall|id: usize| #[trigger]
                after.clients.contains_key(id) <==> b.clients.contains_key(id)
                    && !broadcaster::is_idle(b.clients[id].last_action, now)
            &&& forall|id: usize| #[trigger]
                after.clients.contains_key(id) ==> after.clients[id] == b.clients[id]
            &&& after.streams == b.streams
            &&& after.idle_incoming(now) == Set::<usize>::empty()
            &&& after.idle_clients(now) == Set::<usize>::empty()
        }),
{
    let after = b.without(b.idle_incoming(now), b.idle_clients(now));
    assert(after.idle_incoming(now) =~= Set::<usize>::empty());
    assert(after.idle_clients(now) =~= Set::<usize>::empty());
}

/// A listener that is forgotten leaves no trace, and the others do not notice.
pub proof fn removal_leaves_no_trace(b: BroadcasterView, id: usize)
    ensures
        ({
            let after = b.without_client(id);
            &&& !after.clients.contains_key(id)
            &&& !after.listeners.contains_key(id)
            &&& !broadcaster::on_some_mount(after.mounts, id)
            &&& forall|x: usize|
                x != id ==> {
                    &&& #[trigger] after.clients.contains_key(x) <==> b.clients.contains_key(x)
                    &&& b.clients.contains_key(x) ==> after.clients[x] == b.clients[x]
                }
            &&& forall|m: int, x: usize|
                0 <= m < b.mounts.len() && x != id ==> (#[trigger] after.mounts[m].contains(x)
                    <==> b.mounts[m].contains(x))
            &&& after.incoming == b.incoming
            &&& after.streams == b.streams
        }),
{
}

/// A client that joins and leaves again leaves the broadcaster as it was.
pub proof fn leaving_undoes_joining(b: BroadcasterView, c: CandidateView)
    requires
        b.wf(),
        c.fits(b),
        !b.clients.contains_key(c.id),
    ensures
        b.joined(c).without_client(c.id) == b,
{
    let after = b.joined(c).without_client(c.id);
    assert forall|m: int| 0 <= m < b.mounts.len() implies #[trigger] after.mounts[m]
        =~= b.mounts[m] by {
        assert(!b.mounts[m].contains(c.id));
    }
    assert(after.mounts =~= b.mounts);
    assert(after.clients =~= b.clients);
    assert(!b.listeners.contains_key(c.id));
    assert(after.listeners =~= b.listeners);
}

} // verus!
