//! The broadcaster: connections, listeners and streams, and what happens to them.
//!
//! The broadcaster holds no sockets. It is told what the poller reported and what
//! connections answered, and it says what to write to which connection and which
//! connections to give up.

use std::collections::{HashMap, HashSet};
use vstd::prelude::*;
use crate::buffer::{BufferData, Media};
use crate::client;
use crate::client::{BufferWrite, Client, ClientView, FlushStep, FlushStepView, Sending};
use crate::config::{Config, StreamConfig};
use crate::framing;
use crate::framing::ConnError;
use crate::request;
use crate::request::{Agent, Header, HeaderView, Incoming, IncomingView};
use crate::response;
use crate::stream::{Stream, StreamView};
use crate::text;

verus! {

broadcast use vstd::std_specs::hash::group_hash_axioms;

/// Seconds of inactivity until a connection is given up.
pub const CLIENT_TIMEOUT: u64 = 10;

/// Times are in nanoseconds.
pub const NANOS_PER_SEC: u64 = 1_000_000_000;

/// The URL that request paths are relative to.
pub const BASE_URL: &'static str = "http://localhost/";

/// What is known of a listener.
#[derive(Debug)]
pub struct Listener {
    pub mount: String,
    pub path: String,
    pub headers: Vec<Header>,
}

#[verifier::ext_equal]
pub struct ListenerView {
    pub mount: Seq<char>,
    pub path: Seq<char>,
    pub headers: Seq<HeaderView>,
}

impl View for Listener {
    type V = ListenerView;

    open spec fn view(&self) -> ListenerView {
        ListenerView {
            mount: self.mount@,
            path: self.path@,
            headers: request::headers_view(self.headers@),
        }
    }
}

/// What is to be done about a notification of the poller.
#[derive(Clone, Copy, Debug, PartialEq, Eq, Structural)]
pub enum Job {
    /// Accept new connections.
    Accept,
    /// Give up inactive connections.
    Reap,
    /// Broadcast what encoders sent.
    Data,
    /// Read from a connection that has not sent its request.
    Incoming,
    /// Write to a listener.
    Client,
    /// Nothing: the ID is not known.
    Unknown,
}

// ---- The state ----

/// The broadcaster.
#[derive(Debug)]
pub struct Broadcaster {
    /// Connections without a request, by poll ID.
    incoming: HashMap<usize, Incoming>,
    /// Listeners, by poll ID.
    clients: HashMap<usize, Client>,
    /// Streams; the index is the mount ID.
    streams: Vec<Stream>,
    /// The listeners of each mount.
    client_mounts: Vec<HashSet<usize>>,
    listeners: HashMap<usize, Listener>,
    lid: usize,
    tid: usize,
    data_id: usize,
    name: String,
    server: String,
}

#[verifier::ext_equal]
pub struct BroadcasterView {
    pub incoming: Map<usize, IncomingView>,
    pub clients: Map<usize, ClientView>,
    pub streams: Seq<StreamView>,
    pub mounts: Seq<Set<usize>>,
    pub listeners: Map<usize, ListenerView>,
    /// Poll ID of the socket that clients connect to.
    pub lid: usize,
    /// Poll ID of the timer.
    pub tid: usize,
    /// Poll ID of the channel from the encoders.
    pub data_id: usize,
    /// The name of the station.
    pub name: Seq<char>,
    /// The name and version of the server.
    pub server: Seq<char>,
}

impl View for Broadcaster {
    type V = BroadcasterView;

    closed spec fn view(&self) -> BroadcasterView {
        BroadcasterView {
            incoming: self.incoming@.map_values(|i: Incoming| i@),
            clients: self.clients@.map_values(|c: Client| c@),
            streams: self.streams@.map_values(|s: Stream| s@),
            mounts: self.client_mounts@.map_values(|m: HashSet<usize>| m@),
            listeners: self.listeners@.map_values(|l: Listener| l@),
            lid: self.lid,
            tid: self.tid,
            data_id: self.data_id,
            name: self.name@,
            server: self.server@,
        }
    }
}

/// More than the timeout has passed since `last`.
pub open spec fn is_idle(last: u64, now: u64) -> bool {
    now - last > CLIENT_TIMEOUT * NANOS_PER_SEC
}

/// The listener `id` is on one of the mounts.
pub open spec fn on_some_mount(mounts: Seq<Set<usize>>, id: usize) -> bool {
    exists|m: int| 0 <= m < mounts.len() && #[trigger] mounts[m].contains(id)
}

impl BroadcasterView {
    /// The broadcaster before anyone connected.
    pub open spec fn start(
        cfg: Config,
        server: Seq<char>,
        lid: usize,
        tid: usize,
        data_id: usize,
    ) -> BroadcasterView {
        BroadcasterView {
            incoming: Map::empty(),
            clients: Map::empty(),
            streams: cfg.streams@.map_values(|c: StreamConfig| StreamView::start(c@)),
            mounts: Seq::new(cfg.streams@.len(), |i: int| Set::empty()),
            listeners: Map::empty(),
            lid,
            tid,
            data_id,
            name: cfg.radio.name@,
            server,
        }
    }

    /// What always holds. There is a mount for each stream; the listeners of the mounts
    /// are the clients; and the clients are those that are listed.
    pub open spec fn wf(self) -> bool {
        &&& self.mounts.len() == self.streams.len()
        &&& forall|m: int| 0 <= m < self.streams.len() ==> (#[trigger] self.streams[m]).wf()
        &&& forall|id: usize|
            self.incoming.contains_key(id) ==> (#[trigger] self.incoming[id]).wf()
        &&& forall|id: usize| self.clients.contains_key(id) ==> (#[trigger] self.clients[id]).wf()
        &&& forall|m: int, id: usize|
            0 <= m < self.mounts.len() && #[trigger] self.mounts[m].contains(id)
                ==> self.clients.contains_key(id)
        &&& forall|id: usize| #[trigger]
            self.clients.contains_key(id) ==> on_some_mount(self.mounts, id)
        &&& self.listeners.dom() == self.clients.dom()
    }

    /// What to do about a notification.
    pub open spec fn job(self, id: usize) -> Job {
        if id == self.lid {
            Job::Accept
        } else if id == self.tid {
            Job::Reap
        } else if id == self.data_id {
            Job::Data
        } else if self.incoming.contains_key(id) {
            Job::Incoming
        } else if self.clients.contains_key(id) {
            Job::Client
        } else {
            Job::Unknown
        }
    }

    pub open spec fn with_incoming(self, id: usize, inc: IncomingView) -> BroadcasterView {
        BroadcasterView { incoming: self.incoming.insert(id, inc), ..self }
    }

    /// A connection was accepted at `now`.
    pub open spec fn accepted(self, id: usize, now: u64) -> BroadcasterView {
        self.with_incoming(id, IncomingView { last_action: now, buf: Seq::empty() })
    }

    pub open spec fn without_incoming(self, id: usize) -> BroadcasterView {
        BroadcasterView { incoming: self.incoming.remove(id), ..self }
    }

    pub open spec fn with_client(self, id: usize, c: ClientView) -> BroadcasterView {
        BroadcasterView { clients: self.clients.insert(id, c), ..self }
    }

    pub open spec fn without_client(self, id: usize) -> BroadcasterView {
        BroadcasterView {
            clients: self.clients.remove(id),
            listeners: self.listeners.remove(id),
            mounts: self.mounts.map_values(|m: Set<usize>| m.remove(id)),
            ..self
        }
    }

    /// The connections without a request that are inactive.
    pub open spec fn idle_incoming(self, now: u64) -> Set<usize> {
        self.incoming.dom().filter(|id: usize| is_idle(self.incoming[id].last_action, now))
    }

    /// The listeners that are inactive.
    pub open spec fn idle_clients(self, now: u64) -> Set<usize> {
        self.clients.dom().filter(|id: usize| is_idle(self.clients[id].last_action, now))
    }

    /// The broadcaster without some connections.
    pub open spec fn without(self, incoming: Set<usize>, clients: Set<usize>) -> BroadcasterView {
        BroadcasterView {
            incoming: self.incoming.remove_keys(incoming),
            clients: self.clients.remove_keys(clients),
            listeners: self.listeners.remove_keys(clients),
            mounts: self.mounts.map_values(|m: Set<usize>| m.difference(clients)),
            ..self
        }
    }
}

/// The members of a set, in some order.
fn members(set: &HashSet<usize>) -> (r: Vec<usize>)
    ensures
        r@.no_duplicates(),
        r@.to_set() == set@,
{
    let mut r: Vec<usize> = Vec::new();
    for id in it: set.iter()
        invariant
            it.seq().unref().to_set() == set@,
            it.seq().no_duplicates(),
            it.seq().unref().take(it.seq().len() as int) == it.seq().unref(),
            r@ == it.seq().unref().take(it.index()),
    {
        r.push(*id);
        assert(r@ == it.seq().unref().take(it.index() + 1));
    }
    r
}

/// The IDs of a map, in some order.
fn ids_of<T>(map: &HashMap<usize, T>) -> (r: Vec<usize>)
    ensures
        r@.no_duplicates(),
        r@.to_set() == map@.dom(),
{
    let mut r: Vec<usize> = Vec::new();
    for id in it: map.keys()
        invariant
            it.seq().unref().to_set() == map@.dom(),
            it.seq().no_duplicates(),
            it.seq().unref().take(it.seq().len() as int) == it.seq().unref(),
            r@ == it.seq().unref().take(it.index()),
    {
        r.push(*id);
        assert(r@ == it.seq().unref().take(it.index() + 1));
    }
    r
}

/// A connection that can become inactive.
trait Timed {
    spec fn last(&self) -> u64;

    /// When something last happened on the connection.
    fn time(&self) -> (r: u64)
        ensures
            r == self.last(),
    ;
}

impl Timed for Incoming {
    spec fn last(&self) -> u64 {
        self@.last_action
    }

    fn time(&self) -> (r: u64) {
        self.last_action()
    }
}

impl Timed for Client {
    spec fn last(&self) -> u64 {
        self@.last_action
    }

    fn time(&self) -> (r: u64) {
        self.last_action()
    }
}

pub(crate) proof fn lemma_push_contains(s: Seq<usize>, a: usize, x: usize)
    ensures
        s.push(a).contains(x) <==> s.contains(x) || x == a,
{
    let t = s.push(a);
    if s.contains(x) {
        let k = choose|k: int| 0 <= k < s.len() && s[k] == x;
        assert(t[k] == x);
    }
    if x == a {
        assert(t[s.len() as int] == x);
    }
    if t.contains(x) && x != a {
        let k = choose|k: int| 0 <= k < t.len() && t[k] == x;
        assert(s[k] == x);
    }
}

/// The IDs of the connections that are inactive, in some order.
fn idle_ids<T: Timed>(map: &HashMap<usize, T>, now: u64) -> (r: Vec<usize>)
    ensures
        r@.no_duplicates(),
        r@.to_set() == map@.dom().filter(|id: usize| is_idle(map@[id].last(), now)),
{
    let ids = ids_of(map);
    let mut r: Vec<usize> = Vec::new();
    let mut i: usize = 0;
    while i < ids.len()
        invariant
            i <= ids@.len(),
            ids@.no_duplicates(),
            ids@.to_set() == map@.dom(),
            r@.no_duplicates(),
            forall|id: usize| #[trigger]
                r@.contains(id) <==> ids@.take(i as int).contains(id) && is_idle(
                    map@[id].last(),
                    now,
                ),
        decreases ids@.len() - i,
    {
        let id: usize = ids[i];
        assert(ids@.to_set().contains(id));
        let last: u64 = map.get(&id).unwrap().time();
        let ghost seen = ids@.take(i as int);
        let ghost before = r@;
        assert(ids@.take(i + 1) == seen.push(id));
        assert(!seen.contains(id));
        assert(!before.contains(id));
        if now > last && now - last > CLIENT_TIMEOUT * NANOS_PER_SEC {
            r.push(id);
            assert forall|x: usize| #[trigger] r@.contains(x) <==> before.contains(x) || x == id by {
                lemma_push_contains(before, id, x);
            }
        }
        assert forall|x: usize| #[trigger] ids@.take(i + 1).contains(x) <==> seen.contains(x) || x
            == id by {
            lemma_push_contains(seen, id, x);
        }
        i = i + 1;
    }
    assert(ids@.take(ids@.len() as int) == ids@);
    assert forall|id: usize| map@.contains_key(id) <==> #[trigger] ids@.contains(id) by {
        assert(ids@.to_set().contains(id) <==> ids@.contains(id));
    }
    r
}

// ---- Keeping the invariant ----

pub(crate) proof fn lemma_without_client(b: BroadcasterView, id: usize)
    requires
        b.wf(),
    ensures
        b.without_client(id).wf(),
{
    let after = b.without_client(id);
    assert forall|x: usize| #[trigger] after.clients.contains_key(x) implies on_some_mount(
        after.mounts,
        x,
    ) by {
        assert(b.clients.contains_key(x));
        let m = choose|m: int| 0 <= m < b.mounts.len() && #[trigger] b.mounts[m].contains(x);
        assert(after.mounts[m].contains(x));
    }
    assert forall|m: int, x: usize|
        0 <= m < after.mounts.len() && #[trigger] after.mounts[m].contains(
            x,
        ) implies after.clients.contains_key(x) by {
        assert(b.mounts[m].contains(x));
    }
    assert forall|x: usize| after.clients.contains_key(x) implies (
    #[trigger] after.clients[x]).wf() by {
        assert(b.clients[x].wf());
    }
    assert(after.listeners.dom() == after.clients.dom());
}

pub(crate) proof fn lemma_with_client(b: BroadcasterView, id: usize, c: ClientView)
    requires
        b.wf(),
        b.clients.contains_key(id),
        c.wf(),
    ensures
        b.with_client(id, c).wf(),
{
    let after = b.with_client(id, c);
    assert forall|x: usize| after.clients.contains_key(x) implies (
    #[trigger] after.clients[x]).wf() by {
        if x != id {
            assert(b.clients[x].wf());
        }
    }
    assert forall|x: usize| #[trigger] after.clients.contains_key(x) implies on_some_mount(
        after.mounts,
        x,
    ) by {
        assert(b.clients.contains_key(x));
    }
    assert(after.listeners.dom() == after.clients.dom());
}

pub(crate) proof fn lemma_with_incoming(b: BroadcasterView, id: usize, inc: IncomingView)
    requires
        b.wf(),
        inc.wf(),
    ensures
        b.with_incoming(id, inc).wf(),
        b.without_incoming(id).wf(),
{
    let after = b.with_incoming(id, inc);
    assert forall|x: usize| after.incoming.contains_key(x) implies (
    #[trigger] after.incoming[x]).wf() by {
        if x != id {
            assert(b.incoming[x].wf());
        }
    }
    let less = b.without_incoming(id);
    assert forall|x: usize| less.incoming.contains_key(x) implies (
    #[trigger] less.incoming[x]).wf() by {
        assert(b.incoming[x].wf());
    }
}

// ---- Connections ----

impl Broadcaster {
    pub open spec fn wf(&self) -> bool {
        self@.wf()
    }

    /// A broadcaster for the streams of `cfg`. `server` is the name and version of the
    /// server; the IDs are those of the poller for the socket that clients connect to,
    /// the timer, and the channel from the encoders.
    pub fn new(cfg: &Config, server: &str, lid: usize, tid: usize, data_id: usize) -> (r:
        Broadcaster)
        ensures
            r@ == BroadcasterView::start(*cfg, server@, lid, tid, data_id),
            r.wf(),
    {
        let mut streams: Vec<Stream> = Vec::new();
        let mut client_mounts: Vec<HashSet<usize>> = Vec::new();
        let mut i: usize = 0;
        while i < cfg.streams.len()
            invariant
                i <= cfg.streams@.len(),
                streams@.len() == i,
                client_mounts@.len() == i,
                forall|k: int| #![trigger streams@[k]]
                    0 <= k < i ==> streams@[k]@ == StreamView::start(cfg.streams@[k]@),
                forall|k: int| #![trigger client_mounts@[k]]
                    0 <= k < i ==> client_mounts@[k]@ == Set::<usize>::empty(),
            decreases cfg.streams@.len() - i,
        {
            streams.push(Stream::new(cfg.streams[i].clone()));
            client_mounts.push(HashSet::new());
            i = i + 1;
        }
        let r = Broadcaster {
            incoming: HashMap::new(),
            clients: HashMap::new(),
            streams,
            client_mounts,
            listeners: HashMap::new(),
            lid,
            tid,
            data_id,
            name: cfg.radio.name.clone(),
            server: server.to_owned(),
        };
        proof {
            let v = BroadcasterView::start(*cfg, server@, lid, tid, data_id);
            assert(r@.incoming == v.incoming);
            assert(r@.clients == v.clients);
            assert(r@.listeners == v.listeners);
            assert(r@.streams == v.streams);
            assert(r@.mounts == v.mounts);
        }
        r
    }

    /// What to do about a notification of the poller.
    pub fn run(&self, id: usize) -> (r: Job)
        ensures
            r == self@.job(id),
    {
        if id == self.lid {
            Job::Accept
        } else if id == self.tid {
            Job::Reap
        } else if id == self.data_id {
            Job::Data
        } else if self.incoming.contains_key(&id) {
            Job::Incoming
        } else if self.clients.contains_key(&id) {
            Job::Client
        } else {
            Job::Unknown
        }
    }

    /// Takes in a connection that was accepted at `now` and is polled as `pid`.
    pub fn accept_client(&mut self, pid: usize, now: u64)
        requires
            old(self).wf(),
        ensures
            final(self)@ == old(self)@.with_incoming(
                pid,
                IncomingView { last_action: now, buf: Seq::empty() },
            ),
            final(self)@ == old(self)@.accepted(pid, now),
            final(self).wf(),
    {
        let inc = Incoming::new(now);
        self.incoming.insert(pid, inc);
        proof {
            let v = old(self)@.with_incoming(pid, inc@);
            assert(self@.incoming == v.incoming);
            lemma_with_incoming(old(self)@, pid, inc@);
        }
    }

    /// Forgets a listener. Its connection is to be taken from the poller and closed.
    pub fn remove_client(&mut self, id: usize)
        requires
            old(self).wf(),
            old(self)@.clients.contains_key(id),
        ensures
            final(self)@ == old(self)@.without_client(id),
            final(self).wf(),
    {
        let ghost before = self@;
        self.clients.remove(&id);
        self.listeners.remove(&id);
        let mut i: usize = 0;
        while i < self.client_mounts.len()
            invariant
                i <= self.client_mounts@.len(),
                self.client_mounts@.len() == before.mounts.len(),
                self@ == (BroadcasterView {
                    mounts: self@.mounts,
                    ..before.without_client(id)
                }),
                forall|k: int| #![trigger self.client_mounts@[k]]
                    0 <= k < i ==> self.client_mounts@[k]@ == before.mounts[k].remove(id),
                forall|k: int| #![trigger self.client_mounts@[k]]
                    i <= k < self.client_mounts@.len() ==> self.client_mounts@[k]@
                        == before.mounts[k],
            decreases self.client_mounts@.len() - i,
        {
            self.client_mounts[i].remove(&id);
            i = i + 1;
        }
        proof {
            assert(self@.mounts == before.without_client(id).mounts);
            lemma_without_client(before, id);
        }
    }

    /// Forgets a connection without a request. It is to be taken from the poller and
    /// closed.
    pub fn remove_incoming(&mut self, id: usize)
        requires
            old(self).wf(),
            old(self)@.incoming.contains_key(id),
        ensures
            final(self)@ == old(self)@.without_incoming(id),
            final(self).wf(),
    {
        self.incoming.remove(&id);
        proof {
            assert(self@.incoming == old(self)@.incoming.remove(id));
            lemma_with_incoming(old(self)@, id, old(self)@.incoming[id]);
        }
    }

    /// Forgets the connections that are inactive at `now`, and says which they were: first
    /// those without a request, then the listeners.
    pub fn reap(&mut self, now: u64) -> (r: (Vec<usize>, Vec<usize>))
        requires
            old(self).wf(),
        ensures
            r.0@.no_duplicates(),
            r.0@.to_set() == old(self)@.idle_incoming(now),
            r.1@.no_duplicates(),
            r.1@.to_set() == old(self)@.idle_clients(now),
            final(self)@ == old(self)@.without(
                old(self)@.idle_incoming(now),
                old(self)@.idle_clients(now),
            ),
            final(self).wf(),
    {
        let ghost before = self@;
        let ghost none = Set::<usize>::empty();
        let first = idle_ids(&self.incoming, now);
        assert(first@.to_set() == before.idle_incoming(now));
        let mut i: usize = 0;
        assert(first@.take(0).to_set() =~= none);
        assert(self@ =~~= before.without(none, none));
        while i < first.len()
            invariant
                i <= first@.len(),
                first@.no_duplicates(),
                first@.to_set() == before.idle_incoming(now),
                none == Set::<usize>::empty(),
                self.wf(),
                self@ == before.without(first@.take(i as int).to_set(), none),
            decreases first@.len() - i,
        {
            let id: usize = first[i];
            proof {
                lemma_take_next(first@, i as int);
                assert(first@.to_set().contains(id));
                assert(self@.incoming.contains_key(id));
            }
            self.remove_incoming(id);
            proof {
                assert(self@ =~~= before.without(first@.take(i + 1).to_set(), none));
            }
            i = i + 1;
        }
        assert(first@.take(first@.len() as int) == first@);
        let ghost gone = first@.to_set();
        let ghost middle = self@;
        let second = idle_ids(&self.clients, now);
        proof {
            assert(middle.clients =~= before.clients);
            assert(middle.idle_clients(now) =~= before.idle_clients(now));
            assert(second@.to_set() =~= before.idle_clients(now));
            assert(second@.take(0).to_set() =~= none);
        }
        i = 0;
        while i < second.len()
            invariant
                i <= second@.len(),
                second@.no_duplicates(),
                second@.to_set() == before.idle_clients(now),
                self.wf(),
                self@ == before.without(gone, second@.take(i as int).to_set()),
            decreases second@.len() - i,
        {
            let id: usize = second[i];
            proof {
                lemma_take_next(second@, i as int);
                assert(second@.to_set().contains(id));
                assert(self@.clients.contains_key(id));
            }
            self.remove_client(id);
            proof {
                assert(self@ =~~= before.without(gone, second@.take(i + 1).to_set()));
            }
            i = i + 1;
        }
        assert(second@.take(second@.len() as int) == second@);
        (first, second)
    }

    /// The most bytes that the next read from a connection without a request can take.
    pub fn room(&self, id: usize) -> (r: usize)
        requires
            self.wf(),
            self@.incoming.contains_key(id),
        ensures
            r == request::REQUEST_LEN - self@.incoming[id].buf.len(),
    {
        let inc = self.incoming.get(&id).unwrap();
        assert(self@.incoming[id] == inc@);
        inc.room()
    }

    /// Takes in what a read from a connection without a request gave. There is no result
    /// as long as another read is due.
    pub fn read(&mut self, id: usize, got: Result<&[u8], ConnError>) -> (r: Option<Result<(), ()>>)
        requires
            old(self).wf(),
            old(self)@.incoming.contains_key(id),
            got matches Ok(bytes) ==> bytes@.len() <= request::REQUEST_LEN
                - old(self)@.incoming[id].buf.len(),
        ensures
            ({
                let (inc, next) = old(self)@.incoming[id].after_read(
                    match got {
                        Ok(bytes) => Ok(bytes@),
                        Err(e) => Err(e),
                    },
                );
                final(self)@ == old(self)@.with_incoming(id, inc) && r == next
            }),
            final(self).wf(),
    {
        let ghost before = self@;
        let mut inc = self.incoming.remove(&id).unwrap();
        assert(before.incoming[id] == inc@);
        let r = inc.read(got);
        self.incoming.insert(id, inc);
        proof {
            assert(self@.incoming == before.incoming.insert(id, inc@));
            lemma_with_incoming(before, id, inc@);
        }
        r
    }
}

/// The set of the first elements grows by the next element, which is a new one.
proof fn lemma_take_next(s: Seq<usize>, i: int)
    requires
        0 <= i < s.len(),
        s.no_duplicates(),
    ensures
        s.take(i + 1).to_set() == s.take(i).to_set().insert(s[i]),
        !s.take(i).to_set().contains(s[i]),
{
    let a = s.take(i);
    let b = s.take(i + 1);
    assert(b == a.push(s[i]));
    assert forall|x: usize| b.to_set().contains(x) <==> a.to_set().insert(s[i]).contains(x) by {
        lemma_push_contains(a, s[i], x);
    }
    assert(b.to_set() =~= a.to_set().insert(s[i]));
}

// ---- Listeners that can be written to ----

/// The first mount from `m` on that a path leads to.
pub open spec fn mount_from(streams: Seq<StreamView>, path: Seq<char>, m: int) -> Option<usize>
    decreases streams.len() - m,
{
    if m >= streams.len() {
        None
    } else if text::is_end(streams[m].config.mount, path) {
        Some(m as usize)
    } else {
        mount_from(streams, path, m + 1)
    }
}

pub(crate) proof fn lemma_enlist(
    b: BroadcasterView,
    id: usize,
    mount: usize,
    c: ClientView,
    path: Seq<char>,
    headers: Seq<HeaderView>,
)
    requires
        b.wf(),
        mount < b.streams.len(),
        c.wf(),
    ensures
        b.enlist(id, mount, c, path, headers).wf(),
{
    let after = b.enlist(id, mount, c, path, headers);
    assert forall|x: usize| #[trigger] after.clients.contains_key(x) implies on_some_mount(
        after.mounts,
        x,
    ) by {
        if x == id {
            assert(after.mounts[mount as int].contains(x));
        } else {
            assert(b.clients.contains_key(x));
            let m = choose|m: int| 0 <= m < b.mounts.len() && #[trigger] b.mounts[m].contains(x);
            assert(after.mounts[m].contains(x));
        }
    }
    assert forall|m: int, x: usize|
        0 <= m < after.mounts.len() && #[trigger] after.mounts[m].contains(
            x,
        ) implies after.clients.contains_key(x) by {
        if x != id {
            assert(b.mounts[m].contains(x));
        }
    }
    assert forall|x: usize| after.clients.contains_key(x) implies (
    #[trigger] after.clients[x]).wf() by {
        if x != id {
            assert(b.clients[x].wf());
        }
    }
    assert(after.listeners.dom() == after.clients.dom());
}

impl BroadcasterView {
    /// A piece was broadcast on a mount.
    pub open spec fn store(self, mount: usize, m: Media) -> BroadcasterView {
        BroadcasterView {
            streams: self.streams.update(mount as int, self.streams[mount as int].store(m)),
            ..self
        }
    }

    /// A listener joins a mount.
    pub open spec fn enlist(
        self,
        id: usize,
        mount: usize,
        c: ClientView,
        path: Seq<char>,
        headers: Seq<HeaderView>,
    ) -> BroadcasterView {
        BroadcasterView {
            clients: self.clients.insert(id, c),
            mounts: self.mounts.update(mount as int, self.mounts[mount as int].insert(id)),
            listeners: self.listeners.insert(
                id,
                ListenerView { mount: self.streams[mount as int].config.mount, path, headers },
            ),
            ..self
        }
    }

    /// The mount that a path leads to: the first that is the end of the path.
    pub open spec fn mount_of(self, path: Seq<char>) -> Option<usize> {
        mount_from(self.streams, path, 0)
    }

    /// The buffer of a listener begins to be written out.
    pub open spec fn start_client(self, id: usize, now: u64, cut: int) -> (
        BroadcasterView,
        FlushStepView,
    ) {
        let (c, step) = self.clients[id].start_flush(now, cut);
        (self.with_client(id, c), step)
    }

    /// Writing out the buffer of a listener goes on with an answer. A listener for which
    /// it fails is forgotten.
    pub open spec fn after_client(
        self,
        id: usize,
        w: client::BufferWriteView,
        reply: Result<usize, ConnError>,
        cut: int,
    ) -> (BroadcasterView, FlushStepView) {
        let (c, step) = self.clients[id].after_flush(w, reply, cut);
        if step == FlushStepView::Done(Err(())) {
            (self.without_client(id), step)
        } else {
            (self.with_client(id, c), step)
        }
    }
}

impl Broadcaster {
    /// Takes the listener `id` out of the map.
    pub(crate) fn take_client(&mut self, id: usize) -> (r: Client)
        requires
            old(self)@.clients.contains_key(id),
        ensures
            r@ == old(self)@.clients[id],
            final(self)@ == (BroadcasterView {
                clients: old(self)@.clients.remove(id),
                ..old(self)@
            }),
    {
        let r = self.clients.remove(&id).unwrap();
        assert(self@.clients == old(self)@.clients.remove(id));
        r
    }

    /// Puts the listener `id` into the map.
    pub(crate) fn put_client(&mut self, id: usize, c: Client)
        ensures
            final(self)@ == old(self)@.with_client(id, c@),
    {
        self.clients.insert(id, c);
        assert(self@.clients == old(self)@.clients.insert(id, c@));
    }

    /// The agent of the listener `id`.
    pub(crate) fn agent_of(&self, id: usize) -> (r: Agent)
        requires
            self@.clients.contains_key(id),
        ensures
            r == self@.clients[id].agent,
    {
        let c = self.clients.get(&id).unwrap();
        assert(self@.clients[id] == c@);
        c.agent()
    }

    /// The listeners of a mount, in some order.
    pub(crate) fn listeners_of(&self, mount: usize) -> (r: Vec<usize>)
        requires
            mount < self@.mounts.len(),
        ensures
            r@.no_duplicates(),
            r@.to_set() == self@.mounts[mount as int],
    {
        members(&self.client_mounts[mount])
    }

    /// The stream of a mount.
    pub(crate) fn stream(&self, mount: usize) -> (r: &Stream)
        requires
            mount < self@.streams.len(),
        ensures
            r@ == self@.streams[mount as int],
    {
        &self.streams[mount]
    }

    /// Keeps a piece that was broadcast on a mount.
    pub(crate) fn store(&mut self, mount: usize, data: BufferData)
        requires
            old(self).wf(),
            mount < old(self)@.streams.len(),
        ensures
            final(self)@ == old(self)@.store(mount, data@),
            final(self).wf(),
    {
        self.streams[mount].store(data);
        proof {
            assert(self@.streams == old(self)@.store(mount, data@).streams);
        }
    }

    /// The mount that a path leads to.
    pub fn mount_of(&self, path: &str) -> (r: Option<usize>)
        ensures
            r == self@.mount_of(path@),
            r matches Some(m) ==> m < self@.streams.len(),
    {
        let mut m: usize = 0;
        while m < self.streams.len()
            invariant
                m <= self.streams@.len(),
                self@.mount_of(path@) == mount_from(self@.streams, path@, m as int),
            decreases self.streams@.len() - m,
        {
            assert(self@.streams[m as int] == self.streams@[m as int]@);
            if text::ends_with(path, self.streams[m].config().mount.as_str()) {
                return Some(m);
            }
            m = m + 1;
        }
        None
    }

    /// Takes the connection `id` out of those without a request.
    pub(crate) fn take_incoming(&mut self, id: usize) -> (r: Incoming)
        requires
            old(self).wf(),
            old(self)@.incoming.contains_key(id),
        ensures
            r@ == old(self)@.incoming[id],
            final(self)@ == old(self)@.without_incoming(id),
            final(self).wf(),
    {
        let r = self.incoming.remove(&id).unwrap();
        proof {
            assert(self@.incoming == old(self)@.incoming.remove(id));
            lemma_with_incoming(old(self)@, id, old(self)@.incoming[id]);
        }
        r
    }

    /// Forgets the connection `id`, if it is one without a request.
    pub(crate) fn forget_incoming(&mut self, id: usize)
        requires
            old(self).wf(),
        ensures
            final(self)@ == old(self)@.without_incoming(id),
            final(self).wf(),
    {
        self.incoming.remove(&id);
        assert(self@.incoming == old(self)@.incoming.remove(id));
        assert forall|x: usize| self@.incoming.contains_key(x) implies (
        #[trigger] self@.incoming[x]).wf() by {
            assert(old(self)@.incoming[x].wf());
        }
    }

    /// Puts the connection `id` to those without a request.
    pub(crate) fn put_incoming(&mut self, id: usize, inc: Incoming)
        requires
            old(self).wf(),
            inc.wf(),
        ensures
            final(self)@ == old(self)@.with_incoming(id, inc@),
            final(self).wf(),
    {
        self.incoming.insert(id, inc);
        proof {
            assert(self@.incoming == old(self)@.incoming.insert(id, inc@));
            lemma_with_incoming(old(self)@, id, inc@);
        }
    }

    /// The head of the response to a client that is to join a mount.
    pub(crate) fn response_to(&self, c: &Client, mount: usize) -> (r: Vec<u8>)
        requires
            mount < self@.streams.len(),
        ensures
            r@ == vstd::utf8::encode_utf8(
                response::response_text(
                    c@.agent,
                    c@.accept,
                    self@.server,
                    self@.name,
                    self@.streams[mount as int].config,
                ),
            ),
    {
        assert(self@.streams[mount as int] == self.streams@[mount as int]@);
        c.write_resp(self.server.as_str(), self.name.as_str(), self.streams[mount].config())
    }

    /// Lets a client join a mount.
    pub(crate) fn enlist(
        &mut self,
        id: usize,
        mount: usize,
        c: Client,
        path: String,
        headers: Vec<Header>,
    )
        requires
            old(self).wf(),
            mount < old(self)@.streams.len(),
            c.wf(),
        ensures
            final(self)@ == old(self)@.enlist(
                id,
                mount,
                c@,
                path@,
                request::headers_view(headers@),
            ),
            final(self).wf(),
    {
        let ghost before = self@;
        let ghost after = before.enlist(id, mount, c@, path@, request::headers_view(headers@));
        assert(before.streams[mount as int] == self.streams@[mount as int]@);
        let listener = Listener {
            mount: self.streams[mount].config().mount.clone(),
            path,
            headers,
        };
        self.client_mounts[mount].insert(id);
        self.clients.insert(id, c);
        self.listeners.insert(id, listener);
        proof {
            assert(self@.mounts =~~= after.mounts);
            assert(self@.clients =~= after.clients);
            assert(self@.listeners =~= after.listeners);
            assert(self@ == after);
            lemma_enlist(before, id, mount, c@, path@, request::headers_view(headers@));
        }
    }

    /// What is known of the listener `id`.
    pub fn listener(&self, id: usize) -> (r: Option<&Listener>)
        ensures
            match r {
                Some(l) => self@.listeners.contains_key(id) && l@ == self@.listeners[id],
                None => !self@.listeners.contains_key(id),
            },
    {
        self.listeners.get(&id)
    }

    /// Begins to write out the buffer of the listener `id`.
    pub fn process_client(&mut self, id: usize, now: u64) -> (r: FlushStep)
        requires
            old(self).wf(),
            old(self)@.clients.contains_key(id),
        ensures
            exists|cut: int|
                client::is_cut(cut, old(self)@.clients[id].buffer)
                    && #[trigger] old(self)@.start_client(id, now, cut) == (final(self)@, r@),
            final(self).wf(),
            r@ matches FlushStepView::More(w) ==> w.fits(final(self)@.clients[id]),
    {
        let ghost before = self@;
        let mut c = self.take_client(id);
        let ghost c0 = c@;
        let step = c.flush_buffer(now);
        self.put_client(id, c);
        proof {
            let cut = choose|cut: int|
                client::is_cut(cut, c0.buffer) && #[trigger] c0.start_flush(now, cut) == (
                    c@,
                    step@,
                );
            assert(self@ =~~= before.with_client(id, c@));
            assert(before.start_client(id, now, cut) == (self@, step@));
            lemma_with_client(before, id, c@);
        }
        step
    }

    /// The bytes to write next to the listener `id`.
    pub fn client_bytes<'a>(&'a self, id: usize, w: &'a BufferWrite) -> (r: &'a [u8])
        requires
            self.wf(),
            self@.clients.contains_key(id),
            w@.fits(self@.clients[id]),
        ensures
            r@ == self@.clients[id].request(w@.current(), w@.written as int),
    {
        let c = self.clients.get(&id).unwrap();
        assert(self@.clients[id] == c@);
        c.buffer_bytes(w)
    }

    /// The bytes to write next in a sending to the listener `id`.
    pub(crate) fn sending_bytes<'a>(&'a self, id: usize, s: &'a Sending) -> (r: &'a [u8])
        requires
            self.wf(),
            self@.clients.contains_key(id),
            s@.fits(self@.clients[id]),
        ensures
            r@ == self@.clients[id].send_request(s@),
    {
        let c = self.clients.get(&id).unwrap();
        assert(self@.clients[id] == c@);
        c.send_bytes(s)
    }

    /// Goes on with the answer to the bytes that [`Broadcaster::client_bytes`] gave. When
    /// this fails, the listener is forgotten, and its connection is to be taken from the
    /// poller and closed.
    pub fn continue_client(
        &mut self,
        id: usize,
        w: BufferWrite,
        reply: Result<usize, ConnError>,
    ) -> (r: FlushStep)
        requires
            old(self).wf(),
            old(self)@.clients.contains_key(id),
            w@.fits(old(self)@.clients[id]),
            framing::reply_fits(
                reply,
                old(self)@.clients[id].request(w@.current(), w@.written as int).len(),
            ),
        ensures
            exists|cut: int|
                (r@ is More ==> client::is_cut(cut, final(self)@.clients[id].buffer))
                    && #[trigger] old(self)@.after_client(id, w@, reply, cut) == (
                    final(self)@,
                    r@,
                ),
            final(self).wf(),
            r@ matches FlushStepView::More(next) ==> {
                &&& final(self)@.clients.contains_key(id)
                &&& next.fits(final(self)@.clients[id])
            },
    {
        let ghost before = self@;
        let mut c = self.take_client(id);
        let ghost c0 = c@;
        let step = c.continue_flush(w, reply);
        let ghost cut = choose|cut: int|
            client::is_cut(cut, c@.buffer) && #[trigger] c0.after_flush(w@, reply, cut) == (
                c@,
                step@,
            );
        let failed = match &step {
            FlushStep::Done(Err(_)) => true,
            _ => false,
        };
        self.put_client(id, c);
        proof {
            assert(self@ =~~= before.with_client(id, c@));
            lemma_with_client(before, id, c@);
        }
        if failed {
            self.remove_client(id);
            assert(self@ =~~= before.without_client(id));
        }
        assert(before.after_client(id, w@, reply, cut) == (self@, step@));
        step
    }
}

} // verus!
