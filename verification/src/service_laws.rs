//! What holds of a whole broadcast, and of a client's whole way to a mount, however the
//! connections answer.

use vstd::prelude::*;
use crate::broadcaster::BroadcasterView;
use crate::buffer::Media;
use crate::client;
use crate::client::{BufferWriteView, ClientView, SendStepView, SendingView};
use crate::client_laws;
use crate::client_laws::{Answer, Event, SendRun};
use crate::delivery;
use crate::delivery::{DeliveryStepView, DeliveryView};
use crate::framing;
use crate::framing::ConnError;
use crate::joining;
use crate::joining::{CandidateView, JoinStepView, JoiningView};
use crate::request::{Agent, IncomingView};
use crate::stream;
use crate::stream::StreamView;

verus! {

/// An answer of a connection, the time at which it came, and the place at which a buffer
/// is cut if it begins to be written.
pub type Turn = (Result<usize, ConnError>, u64, int);

// ---- A broadcast ----

/// What came of a broadcast after some answers.
#[verifier::ext_equal]
pub struct DeliveryRun {
    pub b: BroadcasterView,
    pub step: DeliveryStepView,
    /// The listeners that were served, in order.
    pub served: Seq<usize>,
    /// Those among them that were forgotten, in order.
    pub lost: Seq<usize>,
}

impl BroadcasterView {
    /// A broadcast goes on with answers in turn.
    pub open spec fn delivery_run(self, step: DeliveryStepView, turns: Seq<Turn>) -> DeliveryRun
        decreases turns.len(),
    {
        match step {
            DeliveryStepView::More(d) if turns.len() > 0 => {
                let (b, next, lost) = self.after_delivery(d, turns[0].0, turns[0].1, turns[0].2);
                let rest = b.delivery_run(next, turns.drop_first());
                DeliveryRun {
                    b: rest.b,
                    step: rest.step,
                    served: (if same_target(d, next) {
                        Seq::empty()
                    } else {
                        seq![d.target()]
                    }) + rest.served,
                    lost: (match lost {
                        Some(id) => seq![id],
                        None => Seq::empty(),
                    }) + rest.lost,
                }
            },
            _ => DeliveryRun { b: self, step, served: Seq::empty(), lost: Seq::empty() },
        }
    }

    /// The listeners from position `at` on that something is sent to.
    pub open spec fn audience(self, ids: Seq<usize>, at: int, m: Media) -> Seq<usize>
        decreases ids.len() - at,
    {
        if at >= ids.len() {
            Seq::empty()
        } else if gets(self, ids[at], m) {
            seq![ids[at]] + self.audience(ids, at + 1, m)
        } else {
            self.audience(ids, at + 1, m)
        }
    }
}

/// Whether something is sent to the listener `id` in a broadcast of `m`.
pub open spec fn gets(b: BroadcasterView, id: usize, m: Media) -> bool {
    m.bytes().len() > 0 && delivery::wants(b.clients[id], m)
}

/// The broadcast still serves the same listener.
pub open spec fn same_target(d: DeliveryView, next: DeliveryStepView) -> bool {
    next matches DeliveryStepView::More(n) && n.at == d.at
}

/// The listeners from position `at` on are players of the same kinds.
spec fn same_agents(a: BroadcasterView, b: BroadcasterView, ids: Seq<usize>, at: int) -> bool {
    forall|i: int|
        at <= i < ids.len() ==> a.clients[#[trigger] ids[i]].agent == b.clients[ids[i]].agent
}

proof fn lemma_same_audience(
    a: BroadcasterView,
    b: BroadcasterView,
    ids: Seq<usize>,
    at: int,
    m: Media,
)
    requires
        same_agents(a, b, ids, at),
    ensures
        a.audience(ids, at, m) == b.audience(ids, at, m),
    decreases ids.len() - at,
{
    if at < ids.len() {
        lemma_same_audience(a, b, ids, at + 1, m);
        assert(a.clients[ids[at]].agent == b.clients[ids[at]].agent);
    }
}

proof fn lemma_next_in_audience(b: BroadcasterView, ids: Seq<usize>, at: int, m: Media)
    requires
        0 <= at <= ids.len(),
    ensures
        at <= b.next_target(ids, at, m) <= ids.len(),
        b.next_target(ids, at, m) < ids.len() ==> gets(b, ids[b.next_target(ids, at, m)], m),
        b.audience(ids, at, m) == if b.next_target(ids, at, m) >= ids.len() {
            Seq::empty()
        } else {
            seq![ids[b.next_target(ids, at, m)]] + b.audience(
                ids,
                b.next_target(ids, at, m) + 1,
                m,
            )
        },
    decreases ids.len() - at,
{
    if at < ids.len() {
        lemma_next_in_audience(b, ids, at + 1, m);
    }
}

/// A step of a broadcast leaves the kinds of the players that come later.
proof fn lemma_step_keeps_agents(b: BroadcasterView, d: DeliveryView, t: Turn)
    requires
        d.at < d.ids.len(),
        d.ids.no_duplicates(),
    ensures
        same_agents(b, b.after_delivery(d, t.0, t.1, t.2).0, d.ids, d.at + 1),
{
    let id = d.target();
    let c0 = b.clients[id];
    client_laws::lemma_send_encodes(c0, d.send, t.0, t.2);
    let c = c0.after_send(d.send, t.0, t.2).0;
    let after = b.after_delivery(d, t.0, t.1, t.2).0;
    assert forall|i: int| d.at + 1 <= i < d.ids.len() implies b.clients[#[trigger] d.ids[i]].agent
        == after.clients[d.ids[i]].agent by {
        assert(d.ids[i] != id);
    }
}

proof fn lemma_rest_is_served(b: BroadcasterView, d: DeliveryView, turns: Seq<Turn>)
    requires
        d.at < d.ids.len() <= usize::MAX,
        d.ids.no_duplicates(),
    ensures
        b.delivery_run(DeliveryStepView::More(d), turns).step is Done ==> b.delivery_run(
            DeliveryStepView::More(d),
            turns,
        ).served == seq![d.target()] + b.audience(d.ids, d.at + 1, d.media),
    decreases turns.len(),
{
    if turns.len() > 0 {
        let t = turns[0];
        let (after, next, _) = b.after_delivery(d, t.0, t.1, t.2);
        let rest = after.delivery_run(next, turns.drop_first());
        lemma_step_keeps_agents(b, d, t);
        lemma_same_audience(b, after, d.ids, d.at + 1, d.media);
        lemma_next_in_audience(b, d.ids, d.at + 1, d.media);
        lemma_same_next(b, after, d, t);
        if let DeliveryStepView::More(n) = next {
            lemma_rest_is_served(after, n, turns.drop_first());
            if n.at == d.at {
                assert(rest.served == Seq::<usize>::empty() + rest.served);
            } else {
                let i = b.next_target(d.ids, d.at + 1, d.media);
                lemma_same_audience(b, after, d.ids, i + 1, d.media);
            }
        } else {
            assert(rest.served == Seq::<usize>::empty());
            assert(seq![d.target()] + Seq::<usize>::empty() == seq![d.target()]);
        }
    }
}

/// Where a step of a broadcast leads: it stays with its listener, or goes on to the next
/// one that something is sent to.
proof fn lemma_same_next(b: BroadcasterView, after: BroadcasterView, d: DeliveryView, t: Turn)
    requires
        d.at < d.ids.len() <= usize::MAX,
        d.ids.no_duplicates(),
        after == b.after_delivery(d, t.0, t.1, t.2).0,
    ensures
        match b.after_delivery(d, t.0, t.1, t.2).1 {
            DeliveryStepView::More(n) => {
                &&& n.mount == d.mount
                &&& n.media == d.media
                &&& n.ids == d.ids
                &&& n.at == d.at || {
                    &&& n.at == b.next_target(d.ids, d.at + 1, d.media)
                    &&& n.at < d.ids.len()
                }
            },
            DeliveryStepView::Done => b.next_target(d.ids, d.at + 1, d.media) >= d.ids.len(),
        },
{
    let id = d.target();
    let c0 = b.clients[id];
    client_laws::lemma_send_encodes(c0, d.send, t.0, t.2);
    let c = c0.after_send(d.send, t.0, t.2).0;
    let kept = b.with_client(id, c);
    let less = b.without_client(id);
    assert(same_agents(b, kept, d.ids, d.at + 1)) by {
        assert forall|i: int| d.at + 1 <= i < d.ids.len() implies b.clients[
            #[trigger] d.ids[i]
        ].agent == kept.clients[d.ids[i]].agent by {
            assert(d.ids[i] != id);
        }
    }
    assert(same_agents(b, less, d.ids, d.at + 1)) by {
        assert forall|i: int| d.at + 1 <= i < d.ids.len() implies b.clients[
            #[trigger] d.ids[i]
        ].agent == less.clients[d.ids[i]].agent by {
            assert(d.ids[i] != id);
        }
    }
    lemma_same_target(b, kept, d.ids, d.at + 1, d.media);
    lemma_same_target(b, less, d.ids, d.at + 1, d.media);
    lemma_next_in_audience(b, d.ids, d.at + 1, d.media);
}

proof fn lemma_same_target(
    a: BroadcasterView,
    b: BroadcasterView,
    ids: Seq<usize>,
    at: int,
    m: Media,
)
    requires
        same_agents(a, b, ids, at),
    ensures
        a.next_target(ids, at, m) == b.next_target(ids, at, m),
    decreases ids.len() - at,
{
    if at < ids.len() {
        lemma_same_target(a, b, ids, at + 1, m);
        assert(a.clients[ids[at]].agent == b.clients[ids[at]].agent);
    }
}

/// When a broadcast is over, everyone was served who was to get the piece, once and in
/// order, and no one else, however the connections answered.
pub proof fn everyone_is_served(
    b: BroadcasterView,
    mount: usize,
    m: Media,
    ids: Seq<usize>,
    now: u64,
    cut: int,
    turns: Seq<Turn>,
)
    requires
        b.wf(),
        mount < b.streams.len(),
        ids.len() <= usize::MAX,
        delivery::is_order(ids, b.mounts[mount as int]),
    ensures
        ({
            let (first, step) = b.deliver_from(mount, m, ids, 0, now, cut);
            let run = first.delivery_run(step, turns);
            run.step is Done ==> run.served == b.audience(ids, 0, m)
        }),
{
    let (first, step) = b.deliver_from(mount, m, ids, 0, now, cut);
    lemma_next_in_audience(b, ids, 0, m);
    if let DeliveryStepView::More(d) = step {
        lemma_rest_is_served(first, d, turns);
        assert(same_agents(b, first, ids, d.at + 1));
        lemma_same_audience(b, first, ids, d.at + 1, m);
    }
}

/// Everyone but the listeners `ids` is as before.
pub open spec fn others_unchanged(
    b: BroadcasterView,
    after: BroadcasterView,
    ids: Seq<usize>,
) -> bool {
    &&& after.incoming == b.incoming
    &&& forall|x: usize|
        !ids.contains(x) ==> {
            &&& #[trigger] after.clients.contains_key(x) <==> b.clients.contains_key(x)
            &&& after.clients[x] == b.clients[x]
        }
    &&& forall|x: usize|
        !ids.contains(x) ==> {
            &&& #[trigger] after.listeners.contains_key(x) <==> b.listeners.contains_key(x)
            &&& after.listeners[x] == b.listeners[x]
        }
    &&& after.mounts.len() == b.mounts.len()
    &&& forall|k: int, x: usize|
        0 <= k < b.mounts.len() && !ids.contains(x) ==> (#[trigger] after.mounts[k].contains(x)
            <==> b.mounts[k].contains(x))
}

/// The streams are as before, except that a broadcast that is over has left its piece.
pub open spec fn piece_is_kept(
    b: BroadcasterView,
    after: BroadcasterView,
    step: DeliveryStepView,
    mount: usize,
    m: Media,
) -> bool {
    after.streams == if step is Done {
        b.store(mount, m).streams
    } else {
        b.streams
    }
}

proof fn lemma_step_keeps_others(b: BroadcasterView, d: DeliveryView, t: Turn)
    requires
        d.at < d.ids.len() <= usize::MAX,
    ensures
        others_unchanged(b, b.after_delivery(d, t.0, t.1, t.2).0, d.ids),
        piece_is_kept(
            b,
            b.after_delivery(d, t.0, t.1, t.2).0,
            b.after_delivery(d, t.0, t.1, t.2).1,
            d.mount,
            d.media,
        ),
{
    let c = b.clients[d.target()].after_send(d.send, t.0, t.2).0;
    lemma_next_in_audience(b.with_client(d.target(), c), d.ids, d.at + 1, d.media);
    lemma_next_in_audience(b.without_client(d.target()), d.ids, d.at + 1, d.media);
    assert(d.ids.contains(d.target()));
}

proof fn lemma_others_chain(
    a: BroadcasterView,
    b: BroadcasterView,
    c: BroadcasterView,
    ids: Seq<usize>,
)
    requires
        others_unchanged(a, b, ids),
        others_unchanged(b, c, ids),
    ensures
        others_unchanged(a, c, ids),
{
    assert forall|x: usize| !ids.contains(x) implies {
        &&& #[trigger] c.clients.contains_key(x) <==> a.clients.contains_key(x)
        &&& c.clients[x] == a.clients[x]
    } by {
        assert(b.clients.contains_key(x) <==> a.clients.contains_key(x));
    }
    assert forall|x: usize| !ids.contains(x) implies {
        &&& #[trigger] c.listeners.contains_key(x) <==> a.listeners.contains_key(x)
        &&& c.listeners[x] == a.listeners[x]
    } by {
        assert(b.listeners.contains_key(x) <==> a.listeners.contains_key(x));
    }
    assert forall|k: int, x: usize| 0 <= k < a.mounts.len() && !ids.contains(x) implies (
    #[trigger] c.mounts[k].contains(x) <==> a.mounts[k].contains(x)) by {
        assert(b.mounts[k].contains(x) <==> a.mounts[k].contains(x));
    }
}

proof fn lemma_rest_keeps_others(b: BroadcasterView, d: DeliveryView, turns: Seq<Turn>)
    requires
        d.at < d.ids.len() <= usize::MAX,
        d.ids.no_duplicates(),
    ensures
        ({
            let run = b.delivery_run(DeliveryStepView::More(d), turns);
            &&& others_unchanged(b, run.b, d.ids)
            &&& piece_is_kept(b, run.b, run.step, d.mount, d.media)
        }),
    decreases turns.len(),
{
    if turns.len() > 0 {
        let t = turns[0];
        let (after, next, _) = b.after_delivery(d, t.0, t.1, t.2);
        lemma_step_keeps_others(b, d, t);
        lemma_same_next(b, after, d, t);
        if let DeliveryStepView::More(n) = next {
            let rest = after.delivery_run(next, turns.drop_first());
            lemma_rest_keeps_others(after, n, turns.drop_first());
            lemma_others_chain(b, after, rest.b, d.ids);
        }
    }
}

/// A broadcast concerns the listeners of its mount alone: all other connections and all
/// other streams stay as they are. When it is over, its stream has the piece once more
/// than before; until then it is as it was.
pub proof fn broadcast_keeps_to_its_mount(
    b: BroadcasterView,
    mount: usize,
    m: Media,
    ids: Seq<usize>,
    now: u64,
    cut: int,
    turns: Seq<Turn>,
)
    requires
        b.wf(),
        mount < b.streams.len(),
        ids.len() <= usize::MAX,
        delivery::is_order(ids, b.mounts[mount as int]),
    ensures
        ({
            let (first, step) = b.deliver_from(mount, m, ids, 0, now, cut);
            let run = first.delivery_run(step, turns);
            &&& others_unchanged(b, run.b, ids)
            &&& piece_is_kept(b, run.b, run.step, mount, m)
        }),
{
    let (first, step) = b.deliver_from(mount, m, ids, 0, now, cut);
    lemma_next_in_audience(b, ids, 0, m);
    if let DeliveryStepView::More(d) = step {
        assert(ids.contains(d.target()));
        lemma_rest_keeps_others(first, d, turns);
        lemma_others_chain(b, first, first.delivery_run(step, turns).b, ids);
    }
}

proof fn lemma_rest_forgets_lost(b: BroadcasterView, d: DeliveryView, turns: Seq<Turn>)
    requires
        d.at < d.ids.len() <= usize::MAX,
        d.ids.no_duplicates(),
        all_clients(b, d.ids, d.at as int),
    ensures
        ({
            let run = b.delivery_run(DeliveryStepView::More(d), turns);
            run.b.clients.dom() == b.clients.dom().difference(run.lost.to_set())
        }),
    decreases turns.len(),
{
    let run = b.delivery_run(DeliveryStepView::More(d), turns);
    if turns.len() > 0 {
        let t = turns[0];
        let id = d.target();
        let (after, next, lost) = b.after_delivery(d, t.0, t.1, t.2);
        let rest = after.delivery_run(next, turns.drop_first());
        let head: Seq<usize> = match lost {
            Some(id) => seq![id],
            None => Seq::empty(),
        };
        answers_in_a_broadcast(b, d, t);
        lemma_step_all_clients(b, d, t);
        assert(b.clients.contains_key(id));
        assert(after.clients.dom() =~= b.clients.dom().difference(head.to_set())) by {
            assert(head.to_set().contains(id) <==> lost == Some(id)) by {
                if lost == Some(id) {
                    assert(head[0] == id);
                }
            }
            if let DeliveryStepView::More(n) = next {
                assert(after.clients.contains_key(n.ids[n.at as int]));
                assert(b.clients.contains_key(d.ids[n.at as int]));
                if n.at != d.at {
                    assert(d.ids[n.at as int] != id);
                }
            }
        }
        match next {
            DeliveryStepView::More(n) => {
                lemma_rest_forgets_lost(after, n, turns.drop_first());
            },
            DeliveryStepView::Done => {
                assert(rest.b.clients.dom() =~= after.clients.dom().difference(
                    rest.lost.to_set(),
                ));
            },
        }
        lemma_difference_chain(b.clients.dom(), head, rest.lost);
    } else {
        assert(run.b.clients.dom() =~= b.clients.dom().difference(run.lost.to_set()));
    }
}

proof fn lemma_difference_chain(set: Set<usize>, a: Seq<usize>, b: Seq<usize>)
    ensures
        set.difference(a.to_set()).difference(b.to_set()) == set.difference((a + b).to_set()),
{
    assert forall|x: usize| (a + b).to_set().contains(x) <==> a.to_set().contains(x)
        || b.to_set().contains(x) by {
        lemma_concat_contains(a, b, x);
    }
    assert(set.difference(a.to_set()).difference(b.to_set()) =~= set.difference((a + b).to_set()));
}

proof fn lemma_concat_contains(a: Seq<usize>, b: Seq<usize>, x: usize)
    ensures
        (a + b).contains(x) <==> a.contains(x) || b.contains(x),
{
    let all = a + b;
    if a.contains(x) {
        let k = choose|k: int| 0 <= k < a.len() && a[k] == x;
        assert(all[k] == x);
    }
    if b.contains(x) {
        let k = choose|k: int| 0 <= k < b.len() && b[k] == x;
        assert(all[a.len() + k] == x);
    }
    if all.contains(x) {
        let k = choose|k: int| 0 <= k < all.len() && all[k] == x;
        if k < a.len() {
            assert(a[k] == x);
        } else {
            assert(b[k - a.len()] == x);
        }
    }
}

/// The listeners that a broadcast forgets are those that it names.
pub proof fn forgotten_listeners_are_named(
    b: BroadcasterView,
    mount: usize,
    m: Media,
    ids: Seq<usize>,
    now: u64,
    cut: int,
    turns: Seq<Turn>,
)
    requires
        b.wf(),
        mount < b.streams.len(),
        ids.len() <= usize::MAX,
        delivery::is_order(ids, b.mounts[mount as int]),
    ensures
        ({
            let (first, step) = b.deliver_from(mount, m, ids, 0, now, cut);
            let run = first.delivery_run(step, turns);
            run.b.clients.dom() == b.clients.dom().difference(run.lost.to_set())
        }),
{
    let (first, step) = b.deliver_from(mount, m, ids, 0, now, cut);
    let run = first.delivery_run(step, turns);
    lemma_next_in_audience(b, ids, 0, m);
    assert forall|i: int| 0 <= i < ids.len() implies b.clients.contains_key(#[trigger] ids[i]) by {
        assert(ids.to_set().contains(ids[i]));
        assert(b.mounts[mount as int].contains(ids[i]));
    }
    match step {
        DeliveryStepView::More(d) => {
            assert(first.clients.dom() =~= b.clients.dom());
            lemma_rest_forgets_lost(first, d, turns);
        },
        DeliveryStepView::Done => {
            assert(run.lost == Seq::<usize>::empty());
            assert(run.b.clients.dom() =~= b.clients.dom().difference(run.lost.to_set()));
        },
    }
}

proof fn lemma_audience_is_filter(
    b: BroadcasterView,
    ids: Seq<usize>,
    at: int,
    m: Media,
    pred: spec_fn(usize) -> bool,
)
    requires
        0 <= at <= ids.len(),
        forall|id: usize| #[trigger] pred(id) <==> gets(b, id, m),
    ensures
        b.audience(ids, at, m) == ids.skip(at).filter(pred),
    decreases ids.len() - at,
{
    reveal(Seq::filter);
    if at == ids.len() {
        assert(ids.skip(at) == Seq::<usize>::empty());
    } else {
        let one = seq![ids[at]];
        lemma_audience_is_filter(b, ids, at + 1, m, pred);
        assert(ids.skip(at) == one + ids.skip(at + 1));
        Seq::filter_distributes_over_add(one, ids.skip(at + 1), pred);
        assert(one.drop_last() == Seq::<usize>::empty());
        assert(one.drop_last().filter(pred) == Seq::<usize>::empty());
        assert(one.filter(pred) == if pred(ids[at]) {
            one
        } else {
            Seq::empty()
        });
    }
}

/// Audio goes to every listener of its mount, whatever its kind. Headers, trailers and inline
/// data go to the listeners that are MPD or WebSocket clients. Nothing is sent of an empty
/// piece. In any case each is served once, in order.
pub proof fn audio_goes_to_everyone(
    b: BroadcasterView,
    mount: usize,
    m: Media,
    ids: Seq<usize>,
    now: u64,
    cut: int,
    turns: Seq<Turn>,
)
    requires
        b.wf(),
        mount < b.streams.len(),
        ids.len() <= usize::MAX,
        delivery::is_order(ids, b.mounts[mount as int]),
    ensures
        ({
            let (first, step) = b.deliver_from(mount, m, ids, 0, now, cut);
            let run = first.delivery_run(step, turns);
            run.step is Done ==> run.served == match m {
                Media::Frame { data, .. } => if data.len() > 0 {
                    ids
                } else {
                    Seq::empty()
                },
                Media::Header(data) | Media::Trailer(data) | Media::InlineData(data) => {
                    if data.len() > 0 {
                        ids.filter(
                            |id: usize|
                                b.clients[id].agent == Agent::MPD || b.clients[id].agent
                                    == Agent::WebSocket,
                        )
                    } else {
                        Seq::empty()
                    }
                },
            }
        }),
{
    everyone_is_served(b, mount, m, ids, now, cut, turns);
    assert(ids.skip(0) == ids);
    if m.bytes().len() == 0 {
        lemma_audience_is_filter(b, ids, 0, m, |id: usize| false);
        lemma_filter_none(ids);
    } else if m is Frame {
        lemma_audience_is_filter(b, ids, 0, m, |id: usize| true);
        lemma_filter_all(ids);
    } else {
        lemma_audience_is_filter(
            b,
            ids,
            0,
            m,
            |id: usize|
                b.clients[id].agent == Agent::MPD || b.clients[id].agent == Agent::WebSocket,
        );
    }
}

proof fn lemma_filter_all(s: Seq<usize>)
    ensures
        s.filter(|id: usize| true) == s,
    decreases s.len(),
{
    reveal(Seq::filter);
    if s.len() > 0 {
        lemma_filter_all(s.drop_last());
        assert(s == s.drop_last().push(s.last()));
    }
}

proof fn lemma_filter_none(s: Seq<usize>)
    ensures
        s.filter(|id: usize| false) == Seq::<usize>::empty(),
    decreases s.len(),
{
    reveal(Seq::filter);
    if s.len() > 0 {
        lemma_filter_none(s.drop_last());
    }
}

/// A broadcast begins with the sending to the first listener that gets the piece, and no
/// other client changes. If there is none, the stream keeps the piece and that is all.
pub proof fn broadcasts_begin_with_the_first_listener(
    b: BroadcasterView,
    mount: usize,
    m: Media,
    ids: Seq<usize>,
    now: u64,
    cut: int,
)
    requires
        ids.len() <= usize::MAX,
    ensures
        match b.deliver_from(mount, m, ids, 0, now, cut) {
            (first, DeliveryStepView::More(d)) => {
                let (c, step) = b.clients[d.target()].start_send(m, now, cut);
                &&& d.mount == mount
                &&& d.media == m
                &&& d.ids == ids
                &&& d.at < ids.len()
                &&& gets(b, ids[d.at as int], m)
                &&& forall|i: int| 0 <= i < d.at ==> !gets(b, #[trigger] ids[i], m)
                &&& first == BroadcasterView {
                    clients: b.clients.insert(ids[d.at as int], c),
                    ..b
                }
                &&& step == SendStepView::More(d.send)
            },
            (first, DeliveryStepView::Done) => {
                &&& forall|i: int| 0 <= i < ids.len() ==> !gets(b, #[trigger] ids[i], m)
                &&& first == b.store(mount, m)
            },
        },
{
    let k = b.next_target(ids, 0, m);
    lemma_next_in_audience(b, ids, 0, m);
    assert forall|i: int| 0 <= i < k && i < ids.len() implies !gets(b, #[trigger] ids[i], m) by {
        lemma_skipped(b, ids, 0, m, i);
    }
}

// ---- What a broadcast leaves a listener with ----

impl BroadcasterView {
    /// The answers, and the cuts, can be those of a broadcast that goes on from here.
    pub open spec fn delivery_turns_fit(self, step: DeliveryStepView, turns: Seq<Turn>) -> bool
        decreases turns.len(),
    {
        match step {
            DeliveryStepView::More(d) if turns.len() > 0 => {
                let (b, next, _) = self.after_delivery(d, turns[0].0, turns[0].1, turns[0].2);
                &&& framing::reply_fits(
                    turns[0].0,
                    self.clients[d.target()].send_request(d.send).len(),
                )
                &&& delivery::cut_within(turns[0].2, b, next)
                &&& b.delivery_turns_fit(next, turns.drop_first())
            },
            _ => true,
        }
    }
}

/// The listener `id` is as a sending that ended so left it, or is forgotten and named if
/// the sending failed.
pub open spec fn left_by(run: SendRun, after: BroadcasterView, lost: Seq<usize>, id: usize) -> bool {
    match run.step {
        SendStepView::Done(Ok(_)) => {
            &&& after.clients.contains_key(id)
            &&& after.clients[id] == run.client
            &&& !lost.contains(id)
        },
        SendStepView::Done(Err(_)) => !after.clients.contains_key(id) && lost.contains(id),
        SendStepView::More(_) => false,
    }
}

/// The piece was sent to the listener `id`, which was `c` before, with these answers of its
/// connection.
pub open spec fn sent_with(
    c: ClientView,
    m: Media,
    now: u64,
    cut: int,
    answers: Seq<Answer>,
    done: DeliveryRun,
    id: usize,
) -> bool {
    &&& c.send_fits(m, now, cut, answers)
    &&& left_by(c.send_run(m, now, cut, answers), done.b, done.lost, id)
}

/// The piece was sent to the listener `id`, which was `c` before.
pub open spec fn was_sent(c: ClientView, m: Media, done: DeliveryRun, id: usize) -> bool {
    exists|now: u64, cut: int, answers: Seq<Answer>| #[trigger]
        sent_with(c, m, now, cut, answers, done, id)
}

/// What an answer does in a broadcast. As long as the sending to a listener goes on, the
/// broadcast stays with that listener. When it succeeds the listener is kept, and when it
/// fails the listener is forgotten and named; no one else is. Then the sending to the next
/// listener begins at once. No other client changes.
pub proof fn answers_in_a_broadcast(b: BroadcasterView, d: DeliveryView, t: Turn)
    requires
        d.at < d.ids.len() <= usize::MAX,
        d.ids.no_duplicates(),
        all_clients(b, d.ids, d.at as int),
    ensures
        ({
            let id = d.target();
            let (after, next, lost) = b.after_delivery(d, t.0, t.1, t.2);
            let (c, step) = b.clients[id].after_send(d.send, t.0, t.2);
            &&& same_target(d, next) ==> {
                &&& lost is None
                &&& after.clients == b.clients.insert(id, c)
                &&& next matches DeliveryStepView::More(n)
                &&& step == SendStepView::More(n.send)
            }
            &&& !same_target(d, next) ==> {
                let kept = if step == SendStepView::Done(Ok(())) {
                    b.clients.insert(id, c)
                } else {
                    b.clients.remove(id)
                };
                &&& step is Done
                &&& lost == if step == SendStepView::Done(Ok(())) {
                    None
                } else {
                    Some(id)
                }
                &&& match next {
                    DeliveryStepView::More(n) => {
                        let (c2, step2) = b.clients[n.target()].start_send(d.media, t.1, t.2);
                        &&& after.clients == kept.insert(n.target(), c2)
                        &&& step2 == SendStepView::More(n.send)
                    },
                    DeliveryStepView::Done => after.clients == kept,
                }
            }
        }),
{
    let id = d.target();
    let c = b.clients[id].after_send(d.send, t.0, t.2).0;
    let after = b.after_delivery(d, t.0, t.1, t.2).0;
    lemma_same_next(b, after, d, t);
    lemma_next_in_audience(b.with_client(id, c), d.ids, d.at + 1, d.media);
    lemma_next_in_audience(b.without_client(id), d.ids, d.at + 1, d.media);
    lemma_next_in_audience(b, d.ids, d.at + 1, d.media);
    assert forall|i: int| d.at < i < d.ids.len() implies #[trigger] d.ids[i] != id by {}
}

/// The listeners from position `at` on are clients.
pub open spec fn all_clients(b: BroadcasterView, ids: Seq<usize>, at: int) -> bool {
    forall|i: int| at <= i < ids.len() ==> b.clients.contains_key(#[trigger] ids[i])
}

/// Those that a broadcast has not to serve any more stay as they are.
proof fn lemma_rest_keeps_client(
    b: BroadcasterView,
    d: DeliveryView,
    turns: Seq<Turn>,
    x: usize,
)
    requires
        d.at < d.ids.len() <= usize::MAX,
        d.ids.no_duplicates(),
        all_clients(b, d.ids, d.at as int),
        forall|i: int| d.at <= i < d.ids.len() ==> #[trigger] d.ids[i] != x,
    ensures
        ({
            let run = b.delivery_run(DeliveryStepView::More(d), turns);
            &&& run.b.clients.contains_key(x) <==> b.clients.contains_key(x)
            &&& run.b.clients[x] == b.clients[x]
            &&& !run.lost.contains(x)
        }),
    decreases turns.len(),
{
    if turns.len() > 0 {
        let t = turns[0];
        let (after, next, lost) = b.after_delivery(d, t.0, t.1, t.2);
        let rest = after.delivery_run(next, turns.drop_first());
        answers_in_a_broadcast(b, d, t);
        lemma_same_next(b, after, d, t);
        lemma_next_in_audience(b, d.ids, d.at + 1, d.media);
        assert(d.target() != x);
        let head: Seq<usize> = match lost {
            Some(id) => seq![id],
            None => Seq::empty(),
        };
        lemma_concat_contains(head, rest.lost, x);
        if let DeliveryStepView::More(n) = next {
            assert(n.target() != x);
            lemma_step_all_clients(b, d, t);
            lemma_rest_keeps_client(after, n, turns.drop_first(), x);
        }
    }
}

proof fn lemma_step_all_clients(b: BroadcasterView, d: DeliveryView, t: Turn)
    requires
        d.at < d.ids.len() <= usize::MAX,
        d.ids.no_duplicates(),
        all_clients(b, d.ids, d.at as int),
    ensures
        b.after_delivery(d, t.0, t.1, t.2).1 matches DeliveryStepView::More(n) ==> {
            &&& d.at <= n.at < n.ids.len()
            &&& n.ids == d.ids
            &&& all_clients(b.after_delivery(d, t.0, t.1, t.2).0, n.ids, n.at as int)
        },
{
    let (after, next, _) = b.after_delivery(d, t.0, t.1, t.2);
    answers_in_a_broadcast(b, d, t);
    lemma_same_next(b, after, d, t);
    lemma_next_in_audience(b, d.ids, d.at + 1, d.media);
    if let DeliveryStepView::More(n) = next {
        assert forall|i: int| n.at <= i < n.ids.len() implies after.clients.contains_key(
            #[trigger] n.ids[i],
        ) by {
            assert(b.clients.contains_key(d.ids[i]));
            if n.at != d.at {
                assert(d.ids[i] != d.target());
            }
        }
    }
}

/// The answers with which the sending to the listener that is served goes on and ends.
proof fn lemma_target_is_left(b: BroadcasterView, d: DeliveryView, turns: Seq<Turn>) -> (answers:
    Seq<Answer>)
    requires
        d.at < d.ids.len() <= usize::MAX,
        d.ids.no_duplicates(),
        all_clients(b, d.ids, d.at as int),
        b.delivery_turns_fit(DeliveryStepView::More(d), turns),
        b.delivery_run(DeliveryStepView::More(d), turns).step is Done,
    ensures
        ({
            let c = b.clients[d.target()];
            let run = b.delivery_run(DeliveryStepView::More(d), turns);
            &&& c.answers_fit(d.send, answers)
            &&& left_by(c.run(d.send, answers), run.b, run.lost, d.target())
        }),
    decreases turns.len(),
{
    let id = d.target();
    let c = b.clients[id];
    let run = b.delivery_run(DeliveryStepView::More(d), turns);
    let t = turns[0];
    let (after, next, lost) = b.after_delivery(d, t.0, t.1, t.2);
    let rest = after.delivery_run(next, turns.drop_first());
    let head: Seq<usize> = match lost {
        Some(id) => seq![id],
        None => Seq::empty(),
    };
    answers_in_a_broadcast(b, d, t);
    lemma_same_next(b, after, d, t);
    lemma_step_all_clients(b, d, t);
    lemma_next_in_audience(b, d.ids, d.at + 1, d.media);
    lemma_concat_contains(head, rest.lost, id);
    match next {
        DeliveryStepView::More(n) if n.at == d.at => {
            let answers = lemma_target_is_left(after, n, turns.drop_first());
            client_laws::lemma_next_answer(c, d.send, t.0, t.2, n.send, answers);
            seq![(t.0, t.2)] + answers
        },
        _ => {
            client_laws::lemma_last_answer(c, d.send, t.0, t.2);
            if let DeliveryStepView::More(n) = next {
                assert forall|i: int| n.at <= i < n.ids.len() implies #[trigger] n.ids[i] != id by {}
                lemma_rest_keeps_client(after, n, turns.drop_first(), id);
            } else {
                assert(rest.lost == Seq::<usize>::empty());
            }
            if lost is Some {
                assert(head[0] == id);
            }
            seq![(t.0, 0int)]
        },
    }
}

proof fn lemma_skipped(b: BroadcasterView, ids: Seq<usize>, at: int, m: Media, i: int)
    requires
        0 <= at <= i < b.next_target(ids, at, m),
    ensures
        i < ids.len() ==> !gets(b, ids[i], m),
    decreases ids.len() - at,
{
    if at < i && at < ids.len() {
        lemma_skipped(b, ids, at + 1, m, i);
    }
}

/// What a finished broadcast leaves of the listener `id`, which was `c` before.
pub open spec fn broadcast_leaves(
    c: ClientView,
    getting: bool,
    m: Media,
    done: DeliveryRun,
    id: usize,
) -> bool {
    if getting {
        was_sent(c, m, done, id)
    } else {
        &&& done.b.clients.contains_key(id)
        &&& done.b.clients[id] == c
        &&& !done.lost.contains(id)
    }
}

/// A broadcast that names one more listener as lost leaves the others the same.
proof fn lemma_more_lost(
    c: ClientView,
    getting: bool,
    m: Media,
    rest: DeliveryRun,
    done: DeliveryRun,
    head: Seq<usize>,
    id: usize,
)
    requires
        broadcast_leaves(c, getting, m, rest, id),
        done.b == rest.b,
        done.lost == head + rest.lost,
        !head.contains(id),
    ensures
        broadcast_leaves(c, getting, m, done, id),
{
    lemma_concat_contains(head, rest.lost, id);
    if getting {
        let (now, cut, answers) = choose|now: u64, cut: int, answers: Seq<Answer>| #[trigger]
            sent_with(c, m, now, cut, answers, rest, id);
        assert(sent_with(c, m, now, cut, answers, done, id));
    }
}

/// The listener that a sending just began to, at the end of the broadcast.
proof fn lemma_started_is_left(
    c: ClientView,
    now: u64,
    cut: int,
    b: BroadcasterView,
    d: DeliveryView,
    turns: Seq<Turn>,
)
    requires
        d.at < d.ids.len() <= usize::MAX,
        d.ids.no_duplicates(),
        all_clients(b, d.ids, d.at as int),
        c.start_send(d.media, now, cut) == (b.clients[d.target()], SendStepView::More(d.send)),
        client::is_cut(cut, b.clients[d.target()].buffer),
        b.delivery_turns_fit(DeliveryStepView::More(d), turns),
        b.delivery_run(DeliveryStepView::More(d), turns).step is Done,
    ensures
        was_sent(
            c,
            d.media,
            b.delivery_run(DeliveryStepView::More(d), turns),
            d.target(),
        ),
{
    let done = b.delivery_run(DeliveryStepView::More(d), turns);
    let answers = lemma_target_is_left(b, d, turns);
    assert(c.buffer == b.clients[d.target()].buffer);
    assert(sent_with(c, d.media, now, cut, answers, done, d.target()));
}

proof fn lemma_later_are_left(b: BroadcasterView, d: DeliveryView, turns: Seq<Turn>, i: int)
    requires
        d.at < i < d.ids.len() <= usize::MAX,
        d.ids.no_duplicates(),
        all_clients(b, d.ids, d.at as int),
        b.delivery_turns_fit(DeliveryStepView::More(d), turns),
        b.delivery_run(DeliveryStepView::More(d), turns).step is Done,
    ensures
        broadcast_leaves(
            b.clients[d.ids[i]],
            gets(b, d.ids[i], d.media),
            d.media,
            b.delivery_run(DeliveryStepView::More(d), turns),
            d.ids[i],
        ),
    decreases turns.len(),
{
    let id = d.ids[i];
    let m = d.media;
    let c = b.clients[id];
    let done = b.delivery_run(DeliveryStepView::More(d), turns);
    let t = turns[0];
    let (after, next, lost) = b.after_delivery(d, t.0, t.1, t.2);
    let rest = after.delivery_run(next, turns.drop_first());
    let head: Seq<usize> = match lost {
        Some(id) => seq![id],
        None => Seq::empty(),
    };
    answers_in_a_broadcast(b, d, t);
    lemma_same_next(b, after, d, t);
    lemma_step_all_clients(b, d, t);
    lemma_next_in_audience(b, d.ids, d.at + 1, m);
    assert(id != d.target());
    assert(b.clients.contains_key(id));
    assert(!head.contains(id));
    match next {
        DeliveryStepView::More(n) => {
            if i == n.at {
                lemma_started_is_left(c, t.1, t.2, after, n, turns.drop_first());
            } else if i > n.at {
                assert(n.target() != id);
                lemma_later_are_left(after, n, turns.drop_first(), i);
            } else {
                assert forall|k: int| n.at <= k < n.ids.len() implies #[trigger] n.ids[k] != id by {}
                lemma_skipped(b, d.ids, d.at + 1, m, i);
                lemma_rest_keeps_client(after, n, turns.drop_first(), id);
            }
        },
        DeliveryStepView::Done => {
            lemma_skipped(b, d.ids, d.at + 1, m, i);
            assert(rest.lost == Seq::<usize>::empty());
        },
    }
    assert(broadcast_leaves(c, gets(b, id, m), m, rest, id));
    lemma_more_lost(c, gets(b, id, m), m, rest, done, head, id);
}

/// When a broadcast is over, the piece was sent to each listener of the mount that gets
/// it: the listener is as the whole sending left it, with whatever its connection
/// answered, or the sending failed and the listener is forgotten and named. The other
/// listeners of the mount are as before.
pub proof fn served_listeners_were_sent_the_piece(
    b: BroadcasterView,
    mount: usize,
    m: Media,
    ids: Seq<usize>,
    now: u64,
    cut: int,
    turns: Seq<Turn>,
    id: usize,
)
    requires
        b.wf(),
        mount < b.streams.len(),
        ids.len() <= usize::MAX,
        delivery::is_order(ids, b.mounts[mount as int]),
        b.mounts[mount as int].contains(id),
        ({
            let (first, step) = b.deliver_from(mount, m, ids, 0, now, cut);
            &&& delivery::cut_within(cut, first, step)
            &&& first.delivery_turns_fit(step, turns)
            &&& first.delivery_run(step, turns).step is Done
        }),
    ensures
        ({
            let (first, step) = b.deliver_from(mount, m, ids, 0, now, cut);
            broadcast_leaves(
                b.clients[id],
                b.audience(ids, 0, m).contains(id),
                m,
                first.delivery_run(step, turns),
                id,
            )
        }),
{
    let (first, step) = b.deliver_from(mount, m, ids, 0, now, cut);
    let done = first.delivery_run(step, turns);
    let c = b.clients[id];
    assert(ids.to_set().contains(id));
    let i = choose|i: int| 0 <= i < ids.len() && ids[i] == id;
    lemma_in_audience(b, ids, 0, m, i);
    lemma_next_in_audience(b, ids, 0, m);
    assert forall|k: int| 0 <= k < ids.len() implies b.clients.contains_key(#[trigger] ids[k]) by {
        assert(ids.to_set().contains(ids[k]));
        assert(b.mounts[mount as int].contains(ids[k]));
    }
    match step {
        DeliveryStepView::More(d) => {
            assert(first.clients == b.clients.insert(d.target(), first.clients[d.target()]));
            assert(all_clients(first, ids, d.at as int));
            if i == d.at {
                lemma_started_is_left(c, now, cut, first, d, turns);
            } else if i > d.at {
                assert(d.target() != id);
                lemma_later_are_left(first, d, turns, i);
            } else {
                assert forall|k: int| d.at <= k < ids.len() implies #[trigger] ids[k] != id by {}
                lemma_skipped(b, ids, 0, m, i);
                lemma_rest_keeps_client(first, d, turns, id);
            }
        },
        DeliveryStepView::Done => {
            lemma_skipped(b, ids, 0, m, i);
        },
    }
}

proof fn lemma_in_audience(b: BroadcasterView, ids: Seq<usize>, at: int, m: Media, i: int)
    requires
        0 <= at <= i < ids.len(),
        ids.no_duplicates(),
    ensures
        b.audience(ids, at, m).contains(ids[i]) <==> gets(b, ids[i], m),
    decreases ids.len() - at,
{
    let id = ids[i];
    let rest = b.audience(ids, at + 1, m);
    lemma_concat_contains(seq![ids[at]], rest, id);
    if at < i {
        lemma_in_audience(b, ids, at + 1, m, i);
        assert(ids[at] != id);
        assert(!seq![ids[at]].contains(id));
    } else {
        assert(seq![ids[at]][0] == id);
        lemma_audience_is_later(b, ids, at + 1, m, id);
    }
}

proof fn lemma_audience_is_later(b: BroadcasterView, ids: Seq<usize>, at: int, m: Media, x: usize)
    requires
        0 <= at,
        forall|k: int| at <= k < ids.len() ==> #[trigger] ids[k] != x,
    ensures
        !b.audience(ids, at, m).contains(x),
    decreases ids.len() - at,
{
    if at < ids.len() {
        lemma_audience_is_later(b, ids, at + 1, m, x);
        lemma_concat_contains(seq![ids[at]], b.audience(ids, at + 1, m), x);
    }
}

// ---- Many broadcasts ----

/// A broadcast: the broadcaster when it began, the piece, and what happened.
#[verifier::ext_equal]
pub struct Broadcast {
    pub b: BroadcasterView,
    pub mount: usize,
    pub media: Media,
    pub ids: Seq<usize>,
    pub now: u64,
    pub cut: int,
    pub turns: Seq<Turn>,
}

impl Broadcast {
    /// What came of the broadcast.
    pub open spec fn outcome(self) -> DeliveryRun {
        let (first, step) = self.b.deliver_from(
            self.mount,
            self.media,
            self.ids,
            0,
            self.now,
            self.cut,
        );
        first.delivery_run(step, self.turns)
    }

    /// The broadcast is one to the listeners of its mount, and it is over.
    pub open spec fn finished(self) -> bool {
        &&& self.b.wf()
        &&& self.mount < self.b.streams.len()
        &&& self.ids.len() <= usize::MAX
        &&& delivery::is_order(self.ids, self.b.mounts[self.mount as int])
        &&& self.outcome().step is Done
    }
}

/// The broadcasts were finished one after the other, and led from the streams `start` to the
/// streams `end`. Whatever else happened between them left the streams alone.
pub open spec fn history(
    start: Seq<StreamView>,
    broadcasts: Seq<Broadcast>,
    end: Seq<StreamView>,
) -> bool
    decreases broadcasts.len(),
{
    if broadcasts.len() == 0 {
        end == start
    } else {
        let last = broadcasts.last();
        &&& last.finished()
        &&& history(start, broadcasts.drop_last(), last.b.streams)
        &&& end == last.outcome().b.streams
    }
}

/// The pieces that were broadcast on a mount, in order.
pub open spec fn pieces_on(broadcasts: Seq<Broadcast>, mount: int) -> Seq<Media>
    decreases broadcasts.len(),
{
    if broadcasts.len() == 0 {
        Seq::empty()
    } else if broadcasts.last().mount == mount {
        pieces_on(broadcasts.drop_last(), mount).push(broadcasts.last().media)
    } else {
        pieces_on(broadcasts.drop_last(), mount)
    }
}

/// After any number of broadcasts, each stream has kept the pieces of its own mount, in
/// order, and none of the other mounts.
pub proof fn streams_keep_their_pieces(
    start: Seq<StreamView>,
    broadcasts: Seq<Broadcast>,
    end: Seq<StreamView>,
)
    requires
        history(start, broadcasts, end),
    ensures
        end.len() == start.len(),
        forall|mount: int|
            0 <= mount < start.len() ==> #[trigger] end[mount] == start[mount].store_all(
                pieces_on(broadcasts, mount),
            ),
    decreases broadcasts.len(),
{
    if broadcasts.len() > 0 {
        let last = broadcasts.last();
        let before = last.b.streams;
        streams_keep_their_pieces(start, broadcasts.drop_last(), before);
        broadcast_keeps_to_its_mount(
            last.b,
            last.mount,
            last.media,
            last.ids,
            last.now,
            last.cut,
            last.turns,
        );
        assert forall|mount: int| 0 <= mount < start.len() implies #[trigger] end[mount]
            == start[mount].store_all(pieces_on(broadcasts, mount)) by {
            let pieces = pieces_on(broadcasts, mount);
            assert(before[mount] == start[mount].store_all(
                pieces_on(broadcasts.drop_last(), mount),
            ));
            if last.mount == mount {
                assert(pieces.drop_last() == pieces_on(broadcasts.drop_last(), mount));
                assert(pieces.last() == last.media);
                assert(end[mount] == before[mount].store(last.media));
            } else {
                assert(end[mount] == before[mount]);
            }
        }
    }
}

/// Only a broadcast changes the streams: accepting, reading, admitting, joining, flushing,
/// reaping and forgetting leave them alone.
pub proof fn only_broadcasts_change_streams(
    b: BroadcasterView,
    id: usize,
    inc: IncomingView,
    w: BufferWriteView,
    c: CandidateView,
    j: JoiningView,
    t: Turn,
    outcome: Result<(), ()>,
    began: u64,
)
    ensures
        b.with_incoming(id, inc).streams == b.streams,
        b.without_incoming(id).streams == b.streams,
        b.after_incoming(id, began, outcome, t.1).0.streams == b.streams,
        b.after_response(c, outcome, t.1, t.2).0.streams == b.streams,
        b.after_join(j, t.0, t.1, t.2).0.streams == b.streams,
        b.start_client(id, t.1, t.2).0.streams == b.streams,
        b.after_client(id, w, t.0, t.2).0.streams == b.streams,
        b.without(b.idle_incoming(t.1), b.idle_clients(t.1)).streams == b.streams,
        b.without_client(id).streams == b.streams,
{
}

// ---- A client that joins ----

/// What came of a client that joins after some answers.
#[verifier::ext_equal]
pub struct JoinRun {
    pub b: BroadcasterView,
    pub step: JoinStepView,
    /// The pieces that were sent to it, in order.
    pub sent: Seq<Media>,
}

impl BroadcasterView {
    /// A client that joins goes on with answers in turn.
    pub open spec fn join_run(self, step: JoinStepView, turns: Seq<Turn>) -> JoinRun
        decreases turns.len(),
    {
        match step {
            JoinStepView::More(j) if turns.len() > 0 => {
                let (b, next) = self.after_join(j, turns[0].0, turns[0].1, turns[0].2);
                let rest = b.join_run(next, turns.drop_first());
                let c = j.candidate;
                let piece = self.streams[c.mount as int].backlog(c.client.agent)[j.at as int];
                JoinRun {
                    b: rest.b,
                    step: rest.step,
                    sent: (if same_piece(j, next) || next is Failed {
                        Seq::empty()
                    } else {
                        seq![piece]
                    }) + rest.sent,
                }
            },
            _ => JoinRun { b: self, step, sent: Seq::empty() },
        }
    }
}

/// The client is still being sent the same piece.
pub open spec fn same_piece(j: JoiningView, next: JoinStepView) -> bool {
    next matches JoinStepView::More(n) && n.at == j.at
}

/// The pieces from position `at` on that are not empty.
pub open spec fn audible_from(pieces: Seq<Media>, at: int) -> Seq<Media>
    decreases pieces.len() - at,
{
    if at >= pieces.len() {
        Seq::empty()
    } else if pieces[at].bytes().len() > 0 {
        seq![pieces[at]] + audible_from(pieces, at + 1)
    } else {
        audible_from(pieces, at + 1)
    }
}

proof fn lemma_next_audible(pieces: Seq<Media>, at: int)
    requires
        0 <= at <= pieces.len(),
    ensures
        at <= joining::next_piece(pieces, at) <= pieces.len(),
        joining::next_piece(pieces, at) < pieces.len() ==> pieces[joining::next_piece(
            pieces,
            at,
        )].bytes().len() > 0,
        audible_from(pieces, at) == if joining::next_piece(pieces, at) >= pieces.len() {
            Seq::empty()
        } else {
            seq![pieces[joining::next_piece(pieces, at)]] + audible_from(
                pieces,
                joining::next_piece(pieces, at) + 1,
            )
        },
    decreases pieces.len() - at,
{
    if at < pieces.len() {
        lemma_next_audible(pieces, at + 1);
    }
}

impl BroadcasterView {
    /// The answers, and the cuts, can be those of a client that joins from here on.
    pub open spec fn join_turns_fit(self, step: JoinStepView, turns: Seq<Turn>) -> bool
        decreases turns.len(),
    {
        match step {
            JoinStepView::More(j) if turns.len() > 0 => {
                let (b, next) = self.after_join(j, turns[0].0, turns[0].1, turns[0].2);
                &&& framing::reply_fits(
                    turns[0].0,
                    j.candidate.client.send_request(j.send).len(),
                )
                &&& joining::cut_within(turns[0].2, next)
                &&& b.join_turns_fit(next, turns.drop_first())
            },
            _ => true,
        }
    }
}

/// The client `c` became a listener after these events, in which it was sent `pieces`, and
/// it is as they left it.
pub open spec fn joined_by(
    b: BroadcasterView,
    c: CandidateView,
    after: BroadcasterView,
    pieces: Seq<Media>,
    events: Seq<Event>,
) -> bool {
    &&& c.client.session_succeeds(events)
    &&& client_laws::audible(events) == pieces
    &&& after == b.joined(CandidateView { client: c.client.session(events).client, ..c })
}

/// What came of a client that joins: it was sent `pieces` and is a listener, or the
/// broadcaster is as it was.
pub open spec fn join_outcome(
    b: BroadcasterView,
    c: CandidateView,
    run: JoinRun,
    pieces: Seq<Media>,
) -> bool {
    if run.step is Joined {
        &&& run.sent == pieces
        &&& exists|events: Seq<Event>| #[trigger] joined_by(b, c, run.b, pieces, events)
    } else {
        run.b == b
    }
}

/// What an answer does to a client that joins. It is sent the same piece as long as the
/// sending goes on, and the next piece that is not empty once it has succeeded; behind the
/// last piece it is a listener. Joining fails if and only if a sending does. Until the client
/// is a listener, the broadcaster does not change.
pub proof fn answers_while_joining(b: BroadcasterView, j: JoiningView, t: Turn)
    requires
        b.wf(),
        j.candidate.mount < b.streams.len(),
        j.at < b.streams[j.candidate.mount as int].backlog(j.candidate.client.agent).len(),
    ensures
        ({
            let c = j.candidate;
            let pieces = b.streams[c.mount as int].backlog(c.client.agent);
            let i = joining::next_piece(pieces, j.at + 1);
            let (client, step) = c.client.after_send(j.send, t.0, t.2);
            let (after, next) = b.after_join(j, t.0, t.1, t.2);
            &&& client.agent == c.client.agent
            &&& match next {
                JoinStepView::More(n) if n.at == j.at => {
                    &&& after == b
                    &&& step == SendStepView::More(n.send)
                    &&& n.candidate == CandidateView { client, ..c }
                },
                JoinStepView::More(n) => {
                    let (started, first) = client.start_send(pieces[i], t.1, t.2);
                    &&& after == b
                    &&& step == SendStepView::Done(Ok(()))
                    &&& n.at == i
                    &&& i < pieces.len()
                    &&& n.candidate == CandidateView { client: started, ..c }
                    &&& first == SendStepView::More(n.send)
                },
                JoinStepView::Joined => {
                    &&& step == SendStepView::Done(Ok(()))
                    &&& i >= pieces.len()
                    &&& after == b.joined(CandidateView { client, ..c })
                },
                JoinStepView::Failed => after == b && step == SendStepView::Done(Err(())),
            }
        }),
{
    let c = j.candidate;
    let pieces = b.streams[c.mount as int].backlog(c.client.agent);
    assert(b.streams[c.mount as int].wf());
    assert(pieces.len() <= stream::BACK_BUFFER_LEN + 2);
    lemma_next_audible(pieces, j.at + 1);
    client_laws::lemma_send_encodes(c.client, j.send, t.0, t.2);
}

/// A sending that began and ended is an event that succeeds.
proof fn lemma_event_of_sending(
    c: ClientView,
    m: Media,
    now: u64,
    cut: int,
    started: ClientView,
    s: SendingView,
    answers: Seq<Answer>,
)
    requires
        m.bytes().len() > 0,
        c.start_send(m, now, cut) == (started, SendStepView::More(s)),
        client::is_cut(cut, started.buffer),
        started.answers_fit(s, answers),
        started.run(s, answers).step == SendStepView::Done(Ok(())),
    ensures
        ({
            let e = Event { piece: Some(m), now, cut, answers };
            &&& c.succeeds(e)
            &&& c.after_event(e).client == started.run(s, answers).client
            &&& client_laws::audible(seq![e]) == seq![m]
        }),
{
    let e = Event { piece: Some(m), now, cut, answers };
    assert(started.buffer == c.buffer);
    assert(seq![e].drop_last() == Seq::<Event>::empty());
    reveal_with_fuel(client_laws::audible, 2);
    assert(client_laws::audible(seq![e]) == seq![m]);
}

/// The answers with which the sending that is under way ends, and the events that follow it
/// until the client is a listener.
#[verifier::spinoff_prover]
proof fn lemma_join_rest(b: BroadcasterView, j: JoiningView, turns: Seq<Turn>) -> (r: (
    Seq<Answer>,
    Seq<Event>,
))
    requires
        b.wf(),
        j.candidate.mount < b.streams.len(),
        j.at < b.streams[j.candidate.mount as int].backlog(j.candidate.client.agent).len(),
        b.join_turns_fit(JoinStepView::More(j), turns),
    ensures
        ({
            let c = j.candidate;
            let pieces = b.streams[c.mount as int].backlog(c.client.agent);
            let run = b.join_run(JoinStepView::More(j), turns);
            let done = c.client.run(j.send, r.0);
            if run.step is Joined {
                &&& run.sent == seq![pieces[j.at as int]] + audible_from(pieces, j.at + 1)
                &&& c.client.answers_fit(j.send, r.0)
                &&& done.step == SendStepView::Done(Ok(()))
                &&& joined_by(
                    b,
                    CandidateView { client: done.client, ..c },
                    run.b,
                    audible_from(pieces, j.at + 1),
                    r.1,
                )
            } else {
                run.b == b
            }
        }),
    decreases turns.len(),
{
    let c = j.candidate;
    let pieces = b.streams[c.mount as int].backlog(c.client.agent);
    let run = b.join_run(JoinStepView::More(j), turns);
    let piece = pieces[j.at as int];
    let none = Seq::<Event>::empty();
    if turns.len() == 0 {
        (Seq::empty(), none)
    } else {
        let t = turns[0];
        let (after, next) = b.after_join(j, t.0, t.1, t.2);
        let rest = after.join_run(next, turns.drop_first());
        let (client, step) = c.client.after_send(j.send, t.0, t.2);
        answers_while_joining(b, j, t);
        lemma_next_audible(pieces, j.at + 1);
        match next {
            JoinStepView::More(n) if n.at == j.at => {
                let (answers, events) = lemma_join_rest(b, n, turns.drop_first());
                if run.step is Joined {
                    client_laws::lemma_next_answer(c.client, j.send, t.0, t.2, n.send, answers);
                    assert(run.sent == rest.sent);
                }
                (seq![(t.0, t.2)] + answers, events)
            },
            JoinStepView::More(n) => {
                let (answers, events) = lemma_join_rest(b, n, turns.drop_first());
                let m = pieces[n.at as int];
                let e = Event { piece: Some(m), now: t.1, cut: t.2, answers };
                let all = seq![e] + events;
                client_laws::lemma_last_answer(c.client, j.send, t.0, t.2);
                if run.step is Joined {
                    lemma_event_of_sending(
                        client,
                        m,
                        t.1,
                        t.2,
                        n.candidate.client,
                        n.send,
                        answers,
                    );
                    client_laws::lemma_session_first(client, e, events);
                    assert(client_laws::audible(all) == audible_from(pieces, j.at + 1));
                }
                (seq![(t.0, 0int)], all)
            },
            JoinStepView::Joined => {
                client_laws::lemma_last_answer(c.client, j.send, t.0, t.2);
                assert(run.sent == seq![piece] + Seq::<Media>::empty());
                (seq![(t.0, 0int)], none)
            },
            JoinStepView::Failed => (Seq::empty(), none),
        }
    }
}

/// A client to which the response was written begins with the first piece that is not empty,
/// or is a listener at once if there is none. One to which it could not be written does not
/// join. Nothing else changes.
pub proof fn joining_begins_with_the_first_piece(
    b: BroadcasterView,
    c: CandidateView,
    now: u64,
    cut: int,
)
    requires
        b.wf(),
        c.fits(b),
    ensures
        b.after_response(c, Err(()), now, cut) == (b, JoinStepView::Failed),
        ({
            let pieces = b.streams[c.mount as int].backlog(c.client.agent);
            match b.after_response(c, Ok(()), now, cut) {
                (after, JoinStepView::More(j)) => {
                    let (client, step) = c.client.start_send(pieces[j.at as int], now, cut);
                    &&& after == b
                    &&& j.at < pieces.len()
                    &&& pieces[j.at as int].bytes().len() > 0
                    &&& forall|i: int|
                        0 <= i < j.at ==> (#[trigger] pieces[i]).bytes().len() == 0
                    &&& j.candidate == CandidateView { client, ..c }
                    &&& step == SendStepView::More(j.send)
                },
                (after, JoinStepView::Joined) => {
                    &&& forall|i: int|
                        0 <= i < pieces.len() ==> (#[trigger] pieces[i]).bytes().len() == 0
                    &&& after == b.joined(c)
                },
                (_, JoinStepView::Failed) => false,
            }
        }),
{
    let pieces = b.streams[c.mount as int].backlog(c.client.agent);
    assert(b.streams[c.mount as int].wf());
    assert(pieces.len() <= stream::BACK_BUFFER_LEN + 2);
    lemma_next_audible(pieces, 0);
    assert forall|i: int| 0 <= i < joining::next_piece(pieces, 0) implies (
    #[trigger] pieces[i]).bytes().len() == 0 by {
        lemma_passed_over(pieces, 0, i);
    }
}

proof fn lemma_passed_over(pieces: Seq<Media>, at: int, i: int)
    requires
        0 <= at <= i < joining::next_piece(pieces, at),
    ensures
        i < pieces.len() ==> pieces[i].bytes().len() == 0,
    decreases pieces.len() - at,
{
    if at < i && at < pieces.len() {
        lemma_passed_over(pieces, at + 1, i);
    }
}

proof fn lemma_audible_is_filter(pieces: Seq<Media>, at: int)
    requires
        0 <= at <= pieces.len(),
    ensures
        audible_from(pieces, at) == pieces.skip(at).filter(|m: Media| m.bytes().len() > 0),
    decreases pieces.len() - at,
{
    let pred = |m: Media| m.bytes().len() > 0;
    reveal(Seq::filter);
    if at == pieces.len() {
        assert(pieces.skip(at) == Seq::<Media>::empty());
    } else {
        let one = seq![pieces[at]];
        lemma_audible_is_filter(pieces, at + 1);
        assert(pieces.skip(at) == one + pieces.skip(at + 1));
        Seq::filter_distributes_over_add(one, pieces.skip(at + 1), pred);
        assert(one.drop_last() == Seq::<Media>::empty());
        assert(one.drop_last().filter(pred) == Seq::<Media>::empty());
        assert(one.filter(pred) == if pred(pieces[at]) {
            one
        } else {
            Seq::empty()
        });
    }
}

/// A client that becomes a listener was sent the header and then all that its stream kept, in
/// order, as far as it is not empty; a WebSocket client was sent the inline data before that.
pub proof fn newcomer_was_sent_header_and_audio(
    b: BroadcasterView,
    c: CandidateView,
    now: u64,
    cut: int,
    turns: Seq<Turn>,
)
    requires
        b.wf(),
        c.fits(b),
        ({
            let (first, step) = b.after_response(c, Ok(()), now, cut);
            joining::cut_within(cut, step) && first.join_turns_fit(step, turns)
        }),
    ensures
        ({
            let (first, step) = b.after_response(c, Ok(()), now, cut);
            let run = first.join_run(step, turns);
            let kept = b.streams[c.mount as int];
            run.step is Joined ==> run.sent == (if c.client.agent == Agent::WebSocket {
                seq![kept.inline, kept.header] + kept.buffer
            } else {
                seq![kept.header] + kept.buffer
            }).filter(|m: Media| m.bytes().len() > 0)
        }),
{
    let kept = b.streams[c.mount as int];
    let pieces = kept.backlog(c.client.agent);
    newcomer_gets_backlog(b, c, Ok(()), now, cut, turns);
    lemma_audible_is_filter(pieces, 0);
    assert(pieces.skip(0) == pieces);
    stream::newcomers_are_sent_all_that_is_kept(kept, c.client.agent);
}

/// A client that becomes a listener was sent all that its stream has for newcomers, once
/// and in order, and it is as those sendings left it. As long as it is not a listener, and
/// when joining fails, nothing about the broadcaster changes.
pub proof fn newcomer_gets_backlog(
    b: BroadcasterView,
    c: CandidateView,
    written: Result<(), ()>,
    now: u64,
    cut: int,
    turns: Seq<Turn>,
)
    requires
        b.wf(),
        c.fits(b),
        ({
            let (first, step) = b.after_response(c, written, now, cut);
            joining::cut_within(cut, step) && first.join_turns_fit(step, turns)
        }),
    ensures
        ({
            let (first, step) = b.after_response(c, written, now, cut);
            join_outcome(
                b,
                c,
                first.join_run(step, turns),
                audible_from(b.streams[c.mount as int].backlog(c.client.agent), 0),
            )
        }),
        written is Err ==> b.after_response(c, written, now, cut).1 is Failed,
{
    let pieces = b.streams[c.mount as int].backlog(c.client.agent);
    let (first, step) = b.after_response(c, written, now, cut);
    let run = first.join_run(step, turns);
    let none = Seq::<Event>::empty();
    assert(b.streams[c.mount as int].wf());
    assert(pieces.len() <= stream::BACK_BUFFER_LEN + 2);
    lemma_next_audible(pieces, 0);
    match step {
        JoinStepView::More(j) => {
            let (answers, events) = lemma_join_rest(b, j, turns);
            if run.step is Joined {
                let m = pieces[j.at as int];
                let e = Event { piece: Some(m), now, cut, answers };
                lemma_event_of_sending(c.client, m, now, cut, j.candidate.client, j.send, answers);
                client_laws::lemma_session_first(c.client, e, events);
                assert(joined_by(b, c, run.b, audible_from(pieces, 0), seq![e] + events));
            }
        },
        JoinStepView::Joined => {
            assert(joined_by(b, c, run.b, audible_from(pieces, 0), none));
        },
        JoinStepView::Failed => {},
    }
}

} // verus!
