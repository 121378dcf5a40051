//! The relay bus: one owner for the registry of connected peers and for
//! the dedup cache. It takes one event at a time and says what is to be
//! done; whoever runs it performs the writes.
//!
//! The relay is a best-effort gossip, not a reliable broadcast. A message
//! reaches the local application at most once for as long as the dedup cache
//! remembers its id; once the id has made room for newer ones, a late copy
//! passes as novel. Nothing is acknowledged or sent again, so a message is
//! lost where every path to a peer fails. A peer that stalls is noticed only
//! when reading from it fails: there is no heartbeat and no timeout.

use vstd::prelude::*;
use crate::dedup::{
    distinct_others, first_place, foremost, last_place, lemma_cache_holds_most_recent,
    lemma_novel_once, lemma_remembered_shift, lemma_remembered_tidy, novelties, recency,
    remembered, replayed, tidy, DedupCache, MAX_CAPACITY,
};
use crate::model::{Envelope, EnvelopeView};

verus! {

/// The address of a peer's socket: what tells one connection from
/// another. An IPv4 address stands as the IPv6 address it maps to.
#[derive(Clone, Copy, Debug, PartialEq, Eq, Hash, Structural)]
pub struct PeerAddr {
    pub ip: u128,
    pub port: u16,
}

/// What reaches the bus.
#[derive(Debug, PartialEq, Eq)]
pub enum BusEvent {
    /// A connection to the peer was made.
    Connect(PeerAddr),
    /// The reader of the peer's connection met the end of the stream or a
    /// read error.
    Disconnect(PeerAddr),
    /// A message arrived on some connection, or was created locally.
    Message(Envelope),
}

/// Mathematical view of a [`BusEvent`].
pub enum BusEventView {
    Connect(PeerAddr),
    Disconnect(PeerAddr),
    Message(EnvelopeView),
}

impl View for BusEvent {
    type V = BusEventView;

    open spec fn view(&self) -> BusEventView {
        match self {
            BusEvent::Connect(peer) => BusEventView::Connect(*peer),
            BusEvent::Disconnect(peer) => BusEventView::Disconnect(*peer),
            BusEvent::Message(envelope) => BusEventView::Message(envelope@),
        }
    }
}

/// What the bus asks for in answer to an event.
#[derive(Debug, PartialEq, Eq)]
pub enum BusOutput {
    /// The peer was added to the registry.
    Registered,
    /// The registry no longer holds the peer.
    Unregistered,
    /// The message was relayed before; it is dropped.
    Dropped,
    /// The message is novel: it is to be published to the local
    /// application once, and written to every listed peer, in this order.
    Deliver { envelope: Envelope, recipients: Vec<PeerAddr> },
}

/// Mathematical view of a [`BusOutput`].
pub enum BusOutputView {
    Registered,
    Unregistered,
    Dropped,
    Deliver { envelope: EnvelopeView, recipients: Seq<PeerAddr> },
}

impl View for BusOutput {
    type V = BusOutputView;

    open spec fn view(&self) -> BusOutputView {
        match self {
            BusOutput::Registered => BusOutputView::Registered,
            BusOutput::Unregistered => BusOutputView::Unregistered,
            BusOutput::Dropped => BusOutputView::Dropped,
            BusOutput::Deliver { envelope, recipients } => BusOutputView::Deliver {
                envelope: envelope@,
                recipients: recipients@,
            },
        }
    }
}

/// Mathematical view of a [`RelayBus`].
pub struct BusView {
    /// The registry, in the order in which the peers connected.
    pub peers: Seq<PeerAddr>,
    /// The ids in the dedup cache, most recently seen first.
    pub seen: Seq<Seq<char>>,
    /// The capacity of the dedup cache.
    pub limit: nat,
}

/// A registry without the entries of one peer, the others in their order.
pub open spec fn without(peers: Seq<PeerAddr>, gone: PeerAddr) -> Seq<PeerAddr>
    decreases peers.len(),
{
    if peers.len() == 0 {
        peers
    } else if peers.last() == gone {
        without(peers.drop_last(), gone)
    } else {
        without(peers.drop_last(), gone).push(peers.last())
    }
}

/// The state of the bus after an event.
pub open spec fn bus_after(state: BusView, event: BusEventView) -> BusView {
    match event {
        BusEventView::Connect(peer) => BusView { peers: state.peers.push(peer), ..state },
        BusEventView::Disconnect(peer) => BusView { peers: without(state.peers, peer), ..state },
        BusEventView::Message(envelope) => BusView {
            seen: remembered(state.seen, state.limit, envelope.id),
            ..state
        },
    }
}

/// What the bus asks for in answer to an event.
pub open spec fn bus_output(state: BusView, event: BusEventView) -> BusOutputView {
    match event {
        BusEventView::Connect(_) => BusOutputView::Registered,
        BusEventView::Disconnect(_) => BusOutputView::Unregistered,
        BusEventView::Message(envelope) => if state.seen.contains(envelope.id) {
            BusOutputView::Dropped
        } else {
            BusOutputView::Deliver { envelope, recipients: state.peers }
        },
    }
}

/// The peers that an output names as recipients.
pub open spec fn recipients_of(output: BusOutputView) -> Seq<PeerAddr> {
    match output {
        BusOutputView::Deliver { envelope, recipients } => recipients,
        _ => Seq::empty(),
    }
}

/// The state of the bus after a sequence of events.
pub open spec fn bus_run(state: BusView, events: Seq<BusEventView>) -> BusView
    decreases events.len(),
{
    if events.len() == 0 {
        state
    } else {
        bus_after(bus_run(state, events.drop_last()), events.last())
    }
}

/// The invariant of the bus: that of its dedup cache.
pub open spec fn bus_sound(state: BusView) -> bool {
    tidy(state.seen, state.limit)
}

/// A bus without peers whose dedup cache is empty.
pub open spec fn fresh_bus(capacity: nat) -> BusView {
    BusView { peers: Seq::empty(), seen: Seq::empty(), limit: capacity }
}

/// The relay bus.
pub struct RelayBus {
    peers: Vec<PeerAddr>,
    seen: DedupCache,
}

impl View for RelayBus {
    type V = BusView;

    closed spec fn view(&self) -> BusView {
        BusView { peers: self.peers@, seen: self.seen@, limit: self.seen.limit() }
    }
}

impl RelayBus {
    /// The invariant of the bus.
    pub closed spec fn wf(&self) -> bool {
        self.seen.wf()
    }

    /// What the invariant says of the view.
    pub proof fn lemma_wf(&self)
        requires
            self.wf(),
        ensures
            bus_sound(self@),
    {
        self.seen.lemma_wf();
    }

    /// A bus without peers whose dedup cache holds `capacity` ids at most.
    /// There is none for a capacity that the cache does not accept.
    pub fn new(capacity: usize) -> (made: Option<Self>)
        ensures
            made is Some <==> 0 < capacity <= MAX_CAPACITY,
            made is Some ==> {
                &&& made->0@ == fresh_bus(capacity as nat)
                &&& made->0.wf()
            },
    {
        match DedupCache::new(capacity) {
            None => None,
            Some(seen) => Some(RelayBus { peers: Vec::new(), seen }),
        }
    }

    /// The registry, in the order in which the peers connected.
    pub fn peers(&self) -> (peers: &Vec<PeerAddr>)
        ensures
            peers@ == self@.peers,
    {
        &self.peers
    }

    /// The capacity of the dedup cache.
    pub fn capacity(&self) -> (capacity: usize)
        requires
            self.wf(),
        ensures
            capacity as nat == self@.limit,
    {
        self.seen.capacity()
    }

    /// Takes one event. A connecting peer joins the registry, a
    /// disconnected one leaves it. A message whose id the dedup cache holds
    /// is dropped; any other is recorded there and comes back to be
    /// published locally and written to every peer in the registry, the
    /// one it came from included.
    pub fn handle(&mut self, event: BusEvent) -> (output: BusOutput)
        requires
            old(self).wf(),
        ensures
            final(self)@ == bus_after(old(self)@, event@),
            output@ == bus_output(old(self)@, event@),
            final(self).wf(),
            bus_sound(final(self)@),
    {
        proof {
            self.lemma_wf();
            match event@ {
                BusEventView::Message(envelope) => {
                    lemma_remembered_tidy(self@.seen, self@.limit, envelope.id);
                },
                _ => {},
            }
        }
        match event {
            BusEvent::Connect(peer) => {
                self.peers.push(peer);
                BusOutput::Registered
            },
            BusEvent::Disconnect(peer) => {
                self.peers = rebuilt_without(&self.peers, peer);
                BusOutput::Unregistered
            },
            BusEvent::Message(envelope) => {
                if self.seen.observe(&envelope.id) {
                    let recipients = copy_of(&self.peers);
                    BusOutput::Deliver { envelope, recipients }
                } else {
                    BusOutput::Dropped
                }
            },
        }
    }
}

/// A copy of a registry.
fn copy_of(peers: &Vec<PeerAddr>) -> (copy: Vec<PeerAddr>)
    ensures
        copy@ == peers@,
{
    let mut copy: Vec<PeerAddr> = Vec::new();
    let mut i: usize = 0;
    while i < peers.len()
        invariant
            i <= peers.len(),
            copy@ == peers@.take(i as int),
        decreases peers.len() - i,
    {
        copy.push(peers[i]);
        assert(peers@.take(i as int + 1) =~= peers@.take(i as int).push(peers@[i as int]));
        i += 1;
    }
    assert(peers@.take(peers.len() as int) =~= peers@);
    copy
}

/// A registry rebuilt without the entries of one peer.
fn rebuilt_without(peers: &Vec<PeerAddr>, gone: PeerAddr) -> (kept: Vec<PeerAddr>)
    ensures
        kept@ == without(peers@, gone),
{
    let mut kept: Vec<PeerAddr> = Vec::new();
    let mut i: usize = 0;
    while i < peers.len()
        invariant
            i <= peers.len(),
            kept@ == without(peers@.take(i as int), gone),
        decreases peers.len() - i,
    {
        proof {
            assert(peers@.take(i as int + 1).drop_last() =~= peers@.take(i as int));
            assert(peers@.take(i as int + 1).last() == peers@[i as int]);
        }
        if peers[i] != gone {
            kept.push(peers[i]);
        }
        i += 1;
    }
    assert(peers@.take(peers.len() as int) =~= peers@);
    kept
}

/// The ids of the messages among the events, in order.
pub open spec fn ids_of(events: Seq<BusEventView>) -> Seq<Seq<char>>
    decreases events.len(),
{
    if events.len() == 0 {
        Seq::empty()
    } else {
        match events.last() {
            BusEventView::Message(envelope) => ids_of(events.drop_last()).push(envelope.id),
            _ => ids_of(events.drop_last()),
        }
    }
}

/// Whether the event is a message under the id.
pub open spec fn carries(event: BusEventView, id: Seq<char>) -> bool {
    event matches BusEventView::Message(envelope) && envelope.id == id
}

/// Whether the event is a message under another id.
pub open spec fn is_stranger(event: BusEventView, id: Seq<char>) -> bool {
    event matches BusEventView::Message(envelope) && envelope.id != id
}

/// Whether some event of the sequence is a message under the id.
pub open spec fn mentions(events: Seq<BusEventView>, id: Seq<char>) -> bool {
    exists|i: int| 0 <= i < events.len() && carries(#[trigger] events[i], id)
}

/// The number of messages under other ids in the sequence.
pub open spec fn strangers(events: Seq<BusEventView>, id: Seq<char>) -> nat
    decreases events.len(),
{
    if events.len() == 0 {
        0
    } else if is_stranger(events.last(), id) {
        strangers(events.drop_last(), id) + 1
    } else {
        strangers(events.drop_last(), id)
    }
}

/// The ids between the first and the last message under an id, the first
/// included.
pub open spec fn window_of(events: Seq<BusEventView>, id: Seq<char>) -> Seq<Seq<char>> {
    ids_of(events).subrange(
        first_place(ids_of(events), id),
        last_place(ids_of(events), id),
    )
}

/// How often the bus, started in `state` and fed the events, asks for a
/// message under the id to be published to the local application.
pub open spec fn deliveries(state: BusView, events: Seq<BusEventView>, id: Seq<char>) -> nat
    decreases events.len(),
{
    if events.len() == 0 {
        0
    } else {
        let earlier = deliveries(state, events.drop_last(), id);
        let before = bus_run(state, events.drop_last());
        if carries(events.last(), id) && !before.seen.contains(id) {
            earlier + 1
        } else {
            earlier
        }
    }
}

/// A registry rebuilt without a peer does not hold that peer, and holds
/// nothing that the registry did not hold.
pub proof fn lemma_without(peers: Seq<PeerAddr>, gone: PeerAddr)
    ensures
        !without(peers, gone).contains(gone),
        forall|peer: PeerAddr| without(peers, gone).contains(peer) ==> peers.contains(peer),
        forall|peer: PeerAddr|
            peers.contains(peer) && peer != gone ==> without(peers, gone).contains(peer),
    decreases peers.len(),
{
    if peers.len() > 0 {
        let shorter = peers.drop_last();
        lemma_without(shorter, gone);
        let kept = without(peers, gone);
        let rest = without(shorter, gone);
        assert(kept == if peers.last() == gone {
            rest
        } else {
            rest.push(peers.last())
        });
        assert forall|peer: PeerAddr| kept.contains(peer) implies peers.contains(peer) && peer
            != gone by {
            let i = choose|i: int| 0 <= i < kept.len() && kept[i] == peer;
            assert(kept[i] == peer);
            if i < rest.len() {
                assert(rest[i] == peer);
                assert(rest.contains(peer));
                assert(shorter.contains(peer));
                let j = choose|j: int| 0 <= j < shorter.len() && shorter[j] == peer;
                assert(peers[j] == peer);
            } else {
                assert(peers[peers.len() - 1] == peer);
            }
        }
        assert forall|peer: PeerAddr| peers.contains(peer) && peer != gone implies kept.contains(
            peer,
        ) by {
            let j = choose|j: int| 0 <= j < peers.len() && peers[j] == peer;
            if j < shorter.len() {
                assert(shorter[j] == peer);
                assert(shorter.contains(peer));
                assert(rest.contains(peer));
                let i = choose|i: int| 0 <= i < rest.len() && rest[i] == peer;
                assert(kept[i] == peer);
            } else {
                assert(kept[rest.len() as int] == peer);
            }
        }
    }
}

/// Events keep the invariant of the bus and the capacity of its cache.
pub proof fn lemma_bus_run_sound(state: BusView, events: Seq<BusEventView>)
    requires
        bus_sound(state),
    ensures
        bus_sound(bus_run(state, events)),
        bus_run(state, events).limit == state.limit,
    decreases events.len(),
{
    if events.len() > 0 {
        lemma_bus_run_sound(state, events.drop_last());
        let before = bus_run(state, events.drop_last());
        match events.last() {
            BusEventView::Message(envelope) => {
                lemma_remembered_tidy(before.seen, before.limit, envelope.id);
            },
            _ => {},
        }
    }
}

/// Events change the dedup cache through the ids of their messages alone.
proof fn lemma_bus_replays(state: BusView, events: Seq<BusEventView>)
    ensures
        bus_run(state, events).seen == replayed(state.seen, state.limit, ids_of(events)),
        bus_run(state, events).limit == state.limit,
    decreases events.len(),
{
    if events.len() > 0 {
        lemma_bus_replays(state, events.drop_last());
        match events.last() {
            BusEventView::Message(envelope) => {
                let ids = ids_of(events);
                assert(ids.drop_last() =~= ids_of(events.drop_last()));
                assert(ids.last() == envelope.id);
            },
            _ => {},
        }
    }
}

/// The events mention an id where the ids of their messages hold it.
pub proof fn lemma_mentions_ids(events: Seq<BusEventView>, id: Seq<char>)
    ensures
        mentions(events, id) <==> ids_of(events).contains(id),
    decreases events.len(),
{
    if events.len() > 0 {
        let shorter = events.drop_last();
        let last = events.last();
        lemma_mentions_ids(shorter, id);
        let ids = ids_of(events);
        let fewer = ids_of(shorter);
        assert(mentions(events, id) <==> mentions(shorter, id) || carries(last, id)) by {
            if mentions(events, id) {
                let i = choose|i: int| 0 <= i < events.len() && carries(#[trigger] events[i], id);
                if i < shorter.len() {
                    assert(carries(shorter[i], id));
                }
            }
            if mentions(shorter, id) {
                let i = choose|i: int| 0 <= i < shorter.len() && carries(#[trigger] shorter[i], id);
                assert(carries(events[i], id));
            }
            if carries(last, id) {
                assert(carries(events[events.len() - 1], id));
            }
        }
        match last {
            BusEventView::Message(envelope) => {
                assert(ids == fewer.push(envelope.id));
                if ids.contains(id) {
                    let i = choose|i: int| 0 <= i < ids.len() && ids[i] == id;
                    if i < fewer.len() {
                        assert(fewer[i] == id);
                    }
                }
                if fewer.contains(id) {
                    let i = choose|i: int| 0 <= i < fewer.len() && fewer[i] == id;
                    assert(ids[i] == id);
                }
                if envelope.id == id {
                    assert(ids[fewer.len() as int] == id);
                }
            },
            _ => {},
        }
    }
}

/// A message is handed to the local application exactly where the dedup
/// cache does not hold its id, and afterwards the cache holds it.
pub proof fn lemma_delivery_rule(state: BusView, envelope: EnvelopeView)
    requires
        bus_sound(state),
    ensures
        bus_output(state, BusEventView::Message(envelope)) is Deliver <==> !state.seen.contains(
            envelope.id,
        ),
        bus_output(state, BusEventView::Message(envelope)) is Dropped <==> state.seen.contains(
            envelope.id,
        ),
        bus_after(state, BusEventView::Message(envelope)).seen.contains(envelope.id),
{
    lemma_remembered_tidy(state.seen, state.limit, envelope.id);
}

/// A bus that started with an empty cache hands a message under an id to
/// the local application as often as its cache takes the id for novel.
pub proof fn lemma_deliveries_are_novelties(
    capacity: nat,
    events: Seq<BusEventView>,
    id: Seq<char>,
)
    ensures
        deliveries(fresh_bus(capacity), events, id) == novelties(capacity, ids_of(events), id),
    decreases events.len(),
{
    if events.len() > 0 {
        let shorter = events.drop_last();
        lemma_deliveries_are_novelties(capacity, shorter, id);
        lemma_bus_replays(fresh_bus(capacity), shorter);
        match events.last() {
            BusEventView::Message(envelope) => {
                let ids = ids_of(events);
                assert(ids.drop_last() =~= ids_of(shorter));
                assert(ids.last() == envelope.id);
            },
            _ => {},
        }
    }
}

/// The state of the dedup cache after events of which fewer than its
/// capacity are messages under other ids than the one looked at.
proof fn lemma_window(state: BusView, events: Seq<BusEventView>, id: Seq<char>)
    requires
        bus_sound(state),
        !state.seen.contains(id),
        strangers(events, id) < state.limit,
    ensures
        mentions(events, id) ==> deliveries(state, events, id) == 1 && exists|place: int|
            0 <= place < bus_run(state, events).seen.len() && place <= strangers(events, id)
                && #[trigger] bus_run(state, events).seen[place] == id,
        !mentions(events, id) ==> deliveries(state, events, id) == 0 && !bus_run(
            state,
            events,
        ).seen.contains(id),
    decreases events.len(),
{
    if events.len() == 0 {
    } else {
        let shorter = events.drop_last();
        let last = events.last();
        lemma_window(state, shorter, id);
        lemma_bus_run_sound(state, shorter);
        let before = bus_run(state, shorter);
        let after = bus_run(state, events);
        assert(mentions(events, id) <==> mentions(shorter, id) || carries(last, id)) by {
            if mentions(events, id) {
                let i = choose|i: int| 0 <= i < events.len() && carries(#[trigger] events[i], id);
                if i < shorter.len() {
                    assert(carries(shorter[i], id));
                }
            }
            if mentions(shorter, id) {
                let i = choose|i: int| 0 <= i < shorter.len() && carries(#[trigger] shorter[i], id);
                assert(carries(events[i], id));
            }
            if carries(last, id) {
                assert(carries(events[events.len() - 1], id));
            }
        }
        match last {
            BusEventView::Message(envelope) => {
                lemma_remembered_tidy(before.seen, before.limit, envelope.id);
                if envelope.id == id {
                    assert(after.seen[0] == id);
                } else if mentions(shorter, id) {
                    let place = choose|place: int|
                        0 <= place < before.seen.len() && place <= strangers(shorter, id)
                            && #[trigger] before.seen[place] == id;
                    lemma_remembered_shift(before.seen, before.limit, envelope.id, id, place);
                    let later = choose|later: int|
                        0 <= later <= place + 1 && later < after.seen.len() && after.seen[later]
                            == id;
                    assert(after.seen[later] == id);
                }
            },
            _ => {
                assert(after.seen == before.seen);
            },
        }
    }
}

/// Dedup idempotence: a bus whose cache does not hold an id is fed any
/// number of messages under that id, mixed with connects, disconnects and
/// fewer messages under other ids than the cache has room for. Then the
/// local application is handed exactly one message under the id.
pub proof fn lemma_delivered_once(state: BusView, events: Seq<BusEventView>, id: Seq<char>)
    requires
        bus_sound(state),
        !state.seen.contains(id),
        mentions(events, id),
        strangers(events, id) < state.limit,
    ensures
        deliveries(state, events, id) == 1,
{
    lemma_window(state, events, id);
}

/// The capacity window: a bus that started with an empty cache drops a
/// message exactly where its id is among the distinct ids seen most
/// recently, as many of them as the cache has room for. Any other message
/// is handed to the local application, be it the first under its id or one
/// whose id has since made room for others.
pub proof fn lemma_dropped_within_window(
    capacity: nat,
    events: Seq<BusEventView>,
    envelope: EnvelopeView,
)
    requires
        0 < capacity,
    ensures
        bus_run(fresh_bus(capacity), events).seen == foremost(recency(ids_of(events)), capacity),
        bus_output(bus_run(fresh_bus(capacity), events), BusEventView::Message(envelope))
            is Dropped <==> foremost(recency(ids_of(events)), capacity).contains(envelope.id),
        bus_output(bus_run(fresh_bus(capacity), events), BusEventView::Message(envelope))
            is Deliver <==> !foremost(recency(ids_of(events)), capacity).contains(envelope.id),
{
    lemma_bus_replays(fresh_bus(capacity), events);
    lemma_cache_holds_most_recent(capacity, ids_of(events));
}

/// Dedup idempotence: a bus that started with an empty cache is fed any
/// events, among them any number of messages under one id, on whatever
/// connections they arrive. If fewer distinct other ids than the cache has
/// room for were seen between the first and the last of them, the local
/// application is handed exactly one message under that id.
pub proof fn lemma_delivered_once_in_window(
    capacity: nat,
    events: Seq<BusEventView>,
    id: Seq<char>,
)
    requires
        0 < capacity,
        mentions(events, id),
        distinct_others(window_of(events, id), id) < capacity,
    ensures
        deliveries(fresh_bus(capacity), events, id) == 1,
{
    lemma_mentions_ids(events, id);
    lemma_deliveries_are_novelties(capacity, events, id);
    lemma_novel_once(capacity, ids_of(events), id);
}

/// At most once: over any run of events throughout which the dedup cache
/// keeps its entry for an id, from the first event's end on, the local
/// application is handed at most one message under that id.
pub proof fn lemma_at_most_once(state: BusView, events: Seq<BusEventView>, id: Seq<char>)
    requires
        forall|k: int|
            1 <= k <= events.len() ==> (#[trigger] bus_run(state, events.take(k))).seen.contains(
                id,
            ),
    ensures
        deliveries(state, events, id) <= 1,
    decreases events.len(),
{
    if events.len() >= 2 {
        let shorter = events.drop_last();
        assert(shorter =~= events.take(events.len() - 1));
        assert forall|k: int| 1 <= k <= shorter.len() implies (#[trigger] bus_run(
            state,
            shorter.take(k),
        )).seen.contains(id) by {
            assert(shorter.take(k) =~= events.take(k));
        }
        lemma_at_most_once(state, shorter, id);
        assert(bus_run(state, events.take(events.len() - 1)).seen.contains(id));
    } else if events.len() == 1 {
        assert(deliveries(state, events.drop_last(), id) == 0);
    }
}

/// A registry that does not hold a peer does not come to hold it through
/// events other than that peer's connecting.
proof fn lemma_stays_out(state: BusView, peer: PeerAddr, events: Seq<BusEventView>)
    requires
        !state.peers.contains(peer),
        forall|i: int|
            0 <= i < events.len() ==> #[trigger] events[i] != BusEventView::Connect(peer),
    ensures
        !bus_run(state, events).peers.contains(peer),
    decreases events.len(),
{
    if events.len() > 0 {
        let shorter = events.drop_last();
        assert forall|i: int| 0 <= i < shorter.len() implies #[trigger] shorter[i]
            != BusEventView::Connect(peer) by {
            assert(shorter[i] == events[i]);
        }
        lemma_stays_out(state, peer, shorter);
        let before = bus_run(state, shorter);
        assert(events[events.len() - 1] != BusEventView::Connect(peer));
        match events.last() {
            BusEventView::Connect(other) => {
                let grown = before.peers.push(other);
                if grown.contains(peer) {
                    let i = choose|i: int| 0 <= i < grown.len() && grown[i] == peer;
                    if i < before.peers.len() {
                        assert(before.peers[i] == peer);
                    }
                }
            },
            BusEventView::Disconnect(other) => {
                lemma_without(before.peers, other);
            },
            BusEventView::Message(_) => {},
        }
    }
}

/// Connection lifecycle: once a peer has connected and disconnected, the
/// registry does not hold it, and as long as it does not connect again no
/// message is written to it.
pub proof fn lemma_disconnected_stays_out(
    state: BusView,
    peer: PeerAddr,
    later: Seq<BusEventView>,
)
    requires
        forall|i: int| 0 <= i < later.len() ==> #[trigger] later[i] != BusEventView::Connect(peer),
    ensures
        ({
            let quiet = bus_after(
                bus_after(state, BusEventView::Connect(peer)),
                BusEventView::Disconnect(peer),
            );
            &&& !quiet.peers.contains(peer)
            &&& !bus_run(quiet, later).peers.contains(peer)
            &&& forall|k: int|
                0 <= k < later.len() ==> !recipients_of(
                    bus_output(bus_run(quiet, later.take(k)), #[trigger] later[k]),
                ).contains(peer)
        }),
{
    let joined = bus_after(state, BusEventView::Connect(peer));
    let quiet = bus_after(joined, BusEventView::Disconnect(peer));
    lemma_without(joined.peers, peer);
    lemma_stays_out(quiet, peer, later);
    assert forall|k: int| 0 <= k < later.len() implies !recipients_of(
        bus_output(bus_run(quiet, later.take(k)), #[trigger] later[k]),
    ).contains(peer) by {
        let prefix = later.take(k);
        assert forall|i: int| 0 <= i < prefix.len() implies #[trigger] prefix[i]
            != BusEventView::Connect(peer) by {
            assert(prefix[i] == later[i]);
        }
        lemma_stays_out(quiet, peer, prefix);
    }
}

} // verus!
