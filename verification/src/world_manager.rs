//! World-level management: which regions run, who is subscribed to what,
//! where players' home regions are, and the parking lot for cycled-out
//! regions. The manager only decides: every effect (spawning or reaping a
//! region, delivering an input to it, sending a packet to a client) is
//! queued as an [`Action`] for the embedding runtime to perform, and time
//! arrives as an explicit `now_ms`, so the core is deterministic.
//!
//! The payload types are opaque here: `K` is a game-event kind as a region
//! consumes it, `P` a processed event as clients receive it, `S` a region
//! snapshot.

use vstd::prelude::*;
use std::collections::{BTreeMap, BTreeSet};
use vstd::std_specs::iter::IteratorSpec;
use vstd::std_specs::cmp::OrdSpec;

use crate::protocol::{ClientId, RegionCoords, SerializedRegion};

verus! {

broadcast use vstd::laws_cmp::group_laws_cmp;

/// Where a client's player is created on first connection.
pub open spec fn spawn_key() -> (i32, i32) {
    (0, 0)
}

/// The region new players start in, `(0, 0)`.
pub fn spawn_region() -> (r: RegionCoords)
    ensures
        r.spec_key() == spawn_key(),
{
    RegionCoords::new(0, 0)
}

/// A region with no keep-alive reason parks after this many milliseconds.
pub const UNLOAD_GRACE_MS: u64 = 5000;

/// What the runtime does when delivering an input to a region fails
/// because the region is gone.
#[derive(Debug, Clone, Copy, PartialEq, Eq, Structural)]
pub enum OnFail {
    /// The region died: report it with `region_died(region, None)` so it
    /// is respawned and its subscribers are resynchronised.
    Respawn,
    /// As `Respawn`, for a delivery the manager followed by re-evaluating
    /// the region's keep-alive reason at `now_ms`: report it with
    /// `region_died(region, Some(now_ms))` so the respawned region is
    /// re-evaluated too.
    RespawnThenRefresh { now_ms: u64 },
    /// The region died before a requested shutdown: report it with
    /// `shutdown_failed` so it is dropped (its state is lost).
    Remove,
    /// Nothing to do.
    Ignore,
}

/// A game event a region is asked to process.
#[derive(Debug, Clone)]
pub enum RegionEvent<K> {
    /// Server-authoritative creation of a client's player.
    CreateClient(ClientId),
    /// An event routed from a client or relayed from another region.
    Forward(K),
}

/// An input to a running region.
#[derive(Debug, Clone)]
pub enum RegionInput<K> {
    Event(RegionEvent<K>),
    /// A new subscriber needs the full state.
    RequestSnapshot(ClientId),
    /// Graceful stop; the region answers with `RegionOutput::Stopped`.
    Shutdown,
}

/// An effect the manager asks the runtime to perform, in queue order.
#[derive(Debug, Clone)]
pub enum Action<K, P, S> {
    /// Start the region, restored from `parked` if given, else generated.
    Spawn { region: RegionCoords, parked: Option<SerializedRegion> },
    /// Deliver an input to a running region.
    Deliver { region: RegionCoords, input: RegionInput<K>, on_fail: OnFail },
    /// Reclaim a stopped or dead region's resources.
    Reap(RegionCoords),
    /// Send a processed event to each listed client.
    SendEvent { to: Vec<ClientId>, event: P },
    /// Send a region snapshot to one client.
    SendSnapshot { to: ClientId, region: RegionCoords, snapshot: S },
    /// Send a clock sync to each listed client.
    SendSyncClock { to: Vec<ClientId>, region: RegionCoords, tick_rate: u64, tick: usize },
    /// Tell a client where its player lives.
    SendPlayerRegion { to: ClientId, home: Option<RegionCoords> },
}

/// What the manager reads of a game event a client sent.
#[derive(Debug, Clone, Copy, PartialEq, Eq, Structural)]
pub enum EventClass {
    Tick,
    Quit,
    /// Player input from the given client.
    PlayerInput(ClientId),
    CreateClient,
    EntityArrived,
    GhostUpdate,
}

/// A packet a client sends to the server.
#[derive(Debug, Clone)]
pub enum ClientPacket<K> {
    /// A game event for region `region`; `class` is what the manager reads
    /// of `kind`.
    GameEvent { class: EventClass, kind: K, region: RegionCoords },
    RequestPlayerRegion,
    RequestRegionConnection(RegionCoords),
    /// The client no longer wants this region's events.
    ReleaseRegionConnection(RegionCoords),
}

/// An event handled by the world manager.
#[derive(Debug, Clone)]
pub enum ServerEvent<K> {
    ClientPacket(ClientPacket<K>, ClientId),
    ClientConnected(ClientId),
    ClientDisconnected(ClientId),
}

/// An entity leaving a region: `arrival` is the arrival event for the
/// target (its pose already moved into the target's frame), `client` the
/// player it carries, if any.
#[derive(Debug, Clone)]
pub struct Departure<K> {
    pub arrival: K,
    pub target: RegionCoords,
    pub client: Option<ClientId>,
}

/// What a running region reports back.
#[derive(Debug, Clone)]
pub enum RegionOutput<K, P, S> {
    EventProcessed(P),
    Snapshot(ClientId, S),
    SyncClock { tick_rate: u64, tick: usize },
    Stopped(SerializedRegion),
    Departures(Vec<Departure<K>>),
    /// Ghost refreshes for neighbours, each already in the target's frame.
    GhostUpdates(Vec<(K, RegionCoords)>),
}

/// Bookkeeping for one running region.
#[derive(Debug, Clone)]
pub struct RegionLink {
    subscribers: BTreeSet<ClientId>,
    /// Set when the region lost its last keep-alive reason; the grace
    /// period counts from here.
    empty_since_ms: Option<u64>,
    /// Shutdown requested, `Stopped` not yet received.
    stopping: bool,
    /// Subscribes that arrived while stopping; replayed after `Stopped`.
    resubscribe_pending: Vec<ClientId>,
}

/// The mathematical state of a region link.
pub struct LinkView {
    pub subscribers: Set<ClientId>,
    pub empty_since: Option<u64>,
    pub stopping: bool,
    pub pending: Seq<ClientId>,
}

impl View for RegionLink {
    type V = LinkView;

    closed spec fn view(&self) -> LinkView {
        LinkView {
            subscribers: self.subscribers@,
            empty_since: self.empty_since_ms,
            stopping: self.stopping,
            pending: self.resubscribe_pending@,
        }
    }
}

/// A just-spawned region's link.
pub open spec fn fresh_link() -> LinkView {
    LinkView {
        subscribers: Set::empty(),
        empty_since: None,
        stopping: false,
        pending: Seq::empty(),
    }
}

impl RegionLink {
    fn fresh() -> (r: RegionLink)
        ensures
            r@ == fresh_link(),
    {
        RegionLink {
            subscribers: BTreeSet::new(),
            empty_since_ms: None,
            stopping: false,
            resubscribe_pending: Vec::new(),
        }
    }
}

/// The mathematical state of the world manager.
pub struct ManagerView<K, P, S> {
    pub regions: Map<(i32, i32), LinkView>,
    pub parked: Map<(i32, i32), SerializedRegion>,
    pub sessions: Map<ClientId, Set<(i32, i32)>>,
    pub homes: Map<ClientId, (i32, i32)>,
    pub outbox: Seq<Action<K, P, S>>,
}

/// A client appears in a running region's subscribers or pending
/// resubscribes only while it has a live session that lists the region.
pub open spec fn subscriptions_consistent<K, P, S>(v: ManagerView<K, P, S>) -> bool {
    forall|rc: (i32, i32), c: ClientId|
        #![trigger v.regions[rc].subscribers.contains(c)]
        #![trigger v.regions[rc].pending.contains(c)]
        v.regions.contains_key(rc) && (v.regions[rc].subscribers.contains(c)
            || v.regions[rc].pending.contains(c)) ==> v.sessions.contains_key(c)
            && v.sessions[c].contains(rc)
}

/// Some connected client's player lives in `rc`.
pub open spec fn is_home<K, P, S>(v: ManagerView<K, P, S>, rc: (i32, i32)) -> bool {
    exists|c: ClientId|
        v.sessions.contains_key(c) && #[trigger] v.homes.contains_key(c) && v.homes[c] == rc
}

/// Region `rc`, when running, has its grace timer running exactly when it
/// has no keep-alive reason: no subscriber and no connected client's home.
pub open spec fn timer_tracks_keepalive<K, P, S>(v: ManagerView<K, P, S>, rc: (i32, i32)) -> bool {
    v.regions.contains_key(rc) ==> (v.regions[rc].empty_since is Some <==> (
    v.regions[rc].subscribers.is_empty() && !is_home(v, rc)))
}

/// A link after re-evaluating its keep-alive reason: the grace timer
/// starts (or keeps running) when it has no subscriber and is nobody's
/// connected home, and is cleared otherwise.
pub open spec fn link_refreshed(l: LinkView, home: bool, now: u64) -> LinkView {
    if l.subscribers.is_empty() && !home {
        LinkView {
            empty_since: Some(
                match l.empty_since {
                    Some(t) => t,
                    None => now,
                },
            ),
            ..l
        }
    } else {
        LinkView { empty_since: None, ..l }
    }
}

/// `refresh_keepalive` on the whole state.
pub open spec fn refreshed<K, P, S>(v: ManagerView<K, P, S>, rc: (i32, i32), now: u64) -> ManagerView<
    K,
    P,
    S,
> {
    if v.regions.contains_key(rc) {
        ManagerView {
            regions: v.regions.insert(rc, link_refreshed(v.regions[rc], is_home(v, rc), now)),
            ..v
        }
    } else {
        v
    }
}

/// `ensure_running`: a region that is not running is spawned, from its
/// parked state if it has one (which leaves the parking lot).
pub open spec fn ensured<K, P, S>(v: ManagerView<K, P, S>, rc: (i32, i32)) -> ManagerView<K, P, S> {
    if v.regions.contains_key(rc) {
        v
    } else {
        ManagerView {
            regions: v.regions.insert(rc, fresh_link()),
            parked: v.parked.remove(rc),
            outbox: v.outbox.push(
                Action::Spawn {
                    region: RegionCoords { x: rc.0, z: rc.1 },
                    parked: if v.parked.contains_key(rc) {
                        Some(v.parked[rc])
                    } else {
                        None
                    },
                },
            ),
            ..v
        }
    }
}

/// An input is queued for a running region, with what to do if the
/// delivery fails, and dropped for any other region.
pub open spec fn delivered_on<K, P, S>(
    v: ManagerView<K, P, S>,
    rc: (i32, i32),
    input: RegionInput<K>,
    on_fail: OnFail,
) -> ManagerView<K, P, S> {
    if v.regions.contains_key(rc) {
        ManagerView {
            outbox: v.outbox.push(
                Action::Deliver { region: RegionCoords { x: rc.0, z: rc.1 }, input, on_fail },
            ),
            ..v
        }
    } else {
        v
    }
}

/// `send_to_region`: an input is queued for a running region (a failed
/// delivery respawns it) and dropped for any other.
pub open spec fn delivered<K, P, S>(
    v: ManagerView<K, P, S>,
    rc: (i32, i32),
    input: RegionInput<K>,
) -> ManagerView<K, P, S> {
    delivered_on(v, rc, input, OnFail::Respawn)
}

/// `subscribe`: a client with a session records the region, the region is
/// woken, and the client becomes a subscriber (and is sent a snapshot), or
/// a pending resubscriber while the region is stopping. Sessionless
/// subscribes are dropped.
pub open spec fn subscribed<K, P, S>(v: ManagerView<K, P, S>, client: ClientId, rc: (i32, i32)) -> ManagerView<
    K,
    P,
    S,
> {
    if !v.sessions.contains_key(client) {
        v
    } else {
        let v1 = ManagerView {
            sessions: v.sessions.insert(client, v.sessions[client].insert(rc)),
            ..v
        };
        let v2 = ensured(v1, rc);
        let l = v2.regions[rc];
        if l.stopping {
            ManagerView {
                regions: v2.regions.insert(rc, LinkView { pending: l.pending.push(client), ..l }),
                ..v2
            }
        } else {
            let v3 = ManagerView {
                regions: v2.regions.insert(
                    rc,
                    LinkView { subscribers: l.subscribers.insert(client), empty_since: None, ..l },
                ),
                ..v2
            };
            delivered(v3, rc, RegionInput::RequestSnapshot(client))
        }
    }
}

/// Every client but `client`.
pub open spec fn others(client: ClientId) -> spec_fn(ClientId) -> bool {
    |c: ClientId| c != client
}

/// A link without `client` as subscriber or pending resubscriber.
pub open spec fn link_unsubscribed(l: LinkView, client: ClientId) -> LinkView {
    LinkView {
        subscribers: l.subscribers.remove(client),
        pending: l.pending.filter(others(client)),
        ..l
    }
}

/// `unsubscribe_link`: the client leaves the region's link, then the
/// region's keep-alive reason is re-evaluated.
pub open spec fn link_left<K, P, S>(
    v: ManagerView<K, P, S>,
    client: ClientId,
    rc: (i32, i32),
    now: u64,
) -> ManagerView<K, P, S> {
    if v.regions.contains_key(rc) {
        refreshed(
            ManagerView {
                regions: v.regions.insert(rc, link_unsubscribed(v.regions[rc], client)),
                ..v
            },
            rc,
            now,
        )
    } else {
        v
    }
}

/// `unsubscribe`: the client's session forgets the region, and the client
/// leaves the region's link.
pub open spec fn unsubscribed<K, P, S>(
    v: ManagerView<K, P, S>,
    client: ClientId,
    rc: (i32, i32),
    now: u64,
) -> ManagerView<K, P, S> {
    let v1 = if v.sessions.contains_key(client) {
        ManagerView { sessions: v.sessions.insert(client, v.sessions[client].remove(rc)), ..v }
    } else {
        v
    };
    link_left(v1, client, rc, now)
}

/// The keys of a client-keyed map, each once.
fn client_keys<V>(m: &BTreeMap<ClientId, V>) -> (r: Vec<ClientId>)
    ensures
        r@.to_set() == m@.dom(),
        r@.no_duplicates(),
{
    let ghost ks = vstd::std_specs::btree::spec_keys_iter(m).remaining();
    let mut out: Vec<ClientId> = Vec::new();
    for c in it: m.keys()
        invariant
            it.seq() == ks,
            out@.len() == it.index(),
            forall|j: int| 0 <= j < it.index() ==> out@[j] == *ks[j],
    {
        out.push(*c);
    }
    proof {
        assert(out@ =~= ks.unref());
    }
    out
}

/// Region keys in the order maps keep them: by `x`, then by `z`.
pub open spec fn key_before(a: (i32, i32), b: (i32, i32)) -> bool {
    a.0 < b.0 || (a.0 == b.0 && a.1 < b.1)
}

/// The keys of a region-keyed map, each once, in ascending order.
fn region_keys<V>(m: &BTreeMap<(i32, i32), V>) -> (r: Vec<(i32, i32)>)
    ensures
        r@.to_set() == m@.dom(),
        r@.no_duplicates(),
        forall|a: int, b: int| 0 <= a < b < r@.len() ==> key_before(r@[a], r@[b]),
{
    let ghost ks = vstd::std_specs::btree::spec_keys_iter(m).remaining();
    let mut out: Vec<(i32, i32)> = Vec::new();
    for c in it: m.keys()
        invariant
            it.seq() == ks,
            out@.len() == it.index(),
            forall|j: int| 0 <= j < it.index() ==> out@[j] == *ks[j],
    {
        out.push(*c);
    }
    proof {
        broadcast use vstd::std_specs::btree::group_btree_axioms;

        assert(out@ =~= ks.unref());
        assert forall|a: int, b: int| 0 <= a < b < out@.len() implies key_before(out@[a], out@[b]) by {
            assert((&ks[a]).cmp_spec(&&ks[b]) is Less);
        }
    }
    out
}

/// The members of a client set, each once, in ascending order.
fn client_items(s: &BTreeSet<ClientId>) -> (r: Vec<ClientId>)
    ensures
        r@.to_set() == s@,
        r@.no_duplicates(),
        forall|a: int, b: int| 0 <= a < b < r@.len() ==> r@[a] < r@[b],
{
    let ghost ks = vstd::std_specs::btree::spec_btree_keys_iter(s).remaining();
    let mut out: Vec<ClientId> = Vec::new();
    for c in it: s.iter()
        invariant
            it.seq() == ks,
            out@.len() == it.index(),
            forall|j: int| 0 <= j < it.index() ==> out@[j] == *ks[j],
    {
        out.push(*c);
    }
    proof {
        broadcast use vstd::std_specs::btree::group_btree_axioms;

        assert(out@ =~= ks.unref());
        assert forall|a: int, b: int| 0 <= a < b < out@.len() implies out@[a] < out@[b] by {
            assert((&ks[a]).cmp_spec(&&ks[b]) is Less);
        }
    }
    out
}

/// The members of a region set, each once.
fn region_items(s: &BTreeSet<(i32, i32)>) -> (r: Vec<(i32, i32)>)
    ensures
        r@.to_set() == s@,
        r@.no_duplicates(),
{
    let ghost ks = vstd::std_specs::btree::spec_btree_keys_iter(s).remaining();
    let mut out: Vec<(i32, i32)> = Vec::new();
    for c in it: s.iter()
        invariant
            it.seq() == ks,
            out@.len() == it.index(),
            forall|j: int| 0 <= j < it.index() ==> out@[j] == *ks[j],
    {
        out.push(*c);
    }
    proof {
        assert(out@ =~= ks.unref());
    }
    out
}

impl RegionLink {
    /// Re-evaluates the keep-alive reason; `home` tells whether the region
    /// is some connected client's home.
    fn refresh(&mut self, home: bool, now: u64)
        ensures
            final(self)@ == link_refreshed(old(self)@, home, now),
    {
        if self.subscribers.is_empty() && !home {
            if self.empty_since_ms.is_none() {
                self.empty_since_ms = Some(now);
            }
        } else {
            self.empty_since_ms = None;
        }
    }

    /// Drops `client` as subscriber and as pending resubscriber.
    fn drop_client(&mut self, client: ClientId)
        ensures
            final(self)@ == link_unsubscribed(old(self)@, client),
    {
        self.subscribers.remove(&client);
        let ghost pend = self.resubscribe_pending@;
        let mut kept: Vec<ClientId> = Vec::new();
        let mut i: usize = 0;
        while i < self.resubscribe_pending.len()
            invariant
                i <= self.resubscribe_pending@.len(),
                self.resubscribe_pending@ == pend,
                kept@ == pend.take(i as int).filter(others(client)),
            decreases self.resubscribe_pending@.len() - i,
        {
            let c = self.resubscribe_pending[i];
            proof {
                assert(pend.take(i + 1) == pend.take(i as int).push(c));
                pend.take(i as int).lemma_filter_push(c, others(client));
            }
            if c != client {
                kept.push(c);
            }
            i = i + 1;
        }
        proof {
            assert(pend.take(i as int) == pend);
        }
        self.resubscribe_pending = kept;
        proof {
            assert(self.subscribers@ =~= old(self).subscribers@.remove(client));
        }
    }
}

/// The coordinates stored under key `k`.
pub open spec fn coords(k: (i32, i32)) -> RegionCoords {
    RegionCoords { x: k.0, z: k.1 }
}

/// A client's home region is re-evaluated for its keep-alive reason.
pub open spec fn home_refreshed<K, P, S>(v: ManagerView<K, P, S>, client: ClientId, now: u64) -> ManagerView<
    K,
    P,
    S,
> {
    if v.homes.contains_key(client) {
        refreshed(v, v.homes[client], now)
    } else {
        v
    }
}

/// The client's session is gone and it has left the links of every region
/// its session listed (each re-evaluated for keep-alive); then its home
/// region is re-evaluated. Its home survives the disconnect.
pub open spec fn disconnected<K, P, S>(v: ManagerView<K, P, S>, client: ClientId, now: u64) -> ManagerView<
    K,
    P,
    S,
> {
    if v.sessions.contains_key(client) {
        let subs = v.sessions[client];
        let v1 = ManagerView { sessions: v.sessions.remove(client), ..v };
        let v2 = ManagerView {
            regions: Map::new(
                |rc: (i32, i32)| v1.regions.contains_key(rc),
                |rc: (i32, i32)|
                    if subs.contains(rc) {
                        link_refreshed(
                            link_unsubscribed(v1.regions[rc], client),
                            is_home(v1, rc),
                            now,
                        )
                    } else {
                        v1.regions[rc]
                    },
            ),
            ..v1
        };
        home_refreshed(v2, client, now)
    } else {
        home_refreshed(v, client, now)
    }
}

/// The state after handling a server event.
pub open spec fn after_server_event<K, P, S>(v: ManagerView<K, P, S>, ev: ServerEvent<K>, now: u64) -> ManagerView<
    K,
    P,
    S,
> {
    match ev {
        ServerEvent::ClientConnected(id) => {
            let v1 = ManagerView { sessions: v.sessions.insert(id, Set::empty()), ..v };
            if v.homes.contains_key(id) {
                v1
            } else {
                let v2 = ensured(v1, spawn_key());
                let v3 = ManagerView { homes: v2.homes.insert(id, spawn_key()), ..v2 };
                delivered(v3, spawn_key(), RegionInput::Event(RegionEvent::CreateClient(id)))
            }
        },
        ServerEvent::ClientDisconnected(id) => disconnected(v, id, now),
        ServerEvent::ClientPacket(packet, id) => match packet {
            ClientPacket::RequestPlayerRegion => ManagerView {
                outbox: v.outbox.push(
                    Action::SendPlayerRegion {
                        to: id,
                        home: if v.homes.contains_key(id) {
                            Some(coords(v.homes[id]))
                        } else {
                            None
                        },
                    },
                ),
                ..v
            },
            ClientPacket::RequestRegionConnection(rc) => subscribed(v, id, rc.spec_key()),
            ClientPacket::ReleaseRegionConnection(rc) => unsubscribed(v, id, rc.spec_key(), now),
            ClientPacket::GameEvent { class, kind, region } => match class {
                EventClass::PlayerInput(cid) => {
                    if v.homes.contains_key(cid) && v.regions.contains_key(v.homes[cid]) {
                        delivered(v, v.homes[cid], RegionInput::Event(RegionEvent::Forward(kind)))
                    } else {
                        v
                    }
                },
                EventClass::CreateClient => {
                    if v.sessions.contains_key(id) && v.sessions[id].contains(region.spec_key())
                        && v.regions.contains_key(region.spec_key()) {
                        delivered(
                            v,
                            region.spec_key(),
                            RegionInput::Event(RegionEvent::Forward(kind)),
                        )
                    } else {
                        v
                    }
                },
                _ => v,
            },
        },
    }
}

/// The event asks the server to quit.
pub open spec fn is_quit<K>(ev: ServerEvent<K>) -> bool {
    ev matches ServerEvent::ClientPacket(ClientPacket::GameEvent { class: EventClass::Quit, .. }, _)
}

proof fn lemma_is_home_same<K, P, S>(a: ManagerView<K, P, S>, b: ManagerView<K, P, S>, rc: (i32, i32))
    requires
        a.sessions == b.sessions,
        a.homes == b.homes,
    ensures
        is_home(a, rc) == is_home(b, rc),
{
}

/// The state with one more queued action.
pub open spec fn with_action<K, P, S>(v: ManagerView<K, P, S>, a: Action<K, P, S>) -> ManagerView<
    K,
    P,
    S,
> {
    ManagerView { outbox: v.outbox.push(a), ..v }
}

/// `subscribe` for each client in turn.
pub open spec fn subscribe_each<K, P, S>(
    v: ManagerView<K, P, S>,
    clients: Seq<ClientId>,
    rc: (i32, i32),
) -> ManagerView<K, P, S>
    decreases clients.len(),
{
    if clients.len() == 0 {
        v
    } else {
        subscribed(subscribe_each(v, clients.drop_last(), rc), clients.last(), rc)
    }
}

/// A stopped region's state enters the parking lot, its link is dropped,
/// its resources are reaped, and every client that asked for it while it
/// was stopping subscribes again (which cycles it right back in).
pub open spec fn stopped<K, P, S>(v: ManagerView<K, P, S>, rc: (i32, i32), state: SerializedRegion) -> ManagerView<
    K,
    P,
    S,
> {
    let pending = if v.regions.contains_key(rc) {
        v.regions[rc].pending
    } else {
        Seq::empty()
    };
    let v1 = ManagerView {
        parked: v.parked.insert(rc, state),
        regions: v.regions.remove(rc),
        outbox: v.outbox.push(Action::Reap(coords(rc))),
        ..v
    };
    subscribe_each(v1, pending, rc)
}

/// An entity leaving region `from`: its target is woken (arrivals always
/// wake a region) and sent the arrival; a carried player moves home to the
/// target, is told so, and both regions are re-evaluated for keep-alive.
pub open spec fn departed<K, P, S>(
    v: ManagerView<K, P, S>,
    from: (i32, i32),
    d: Departure<K>,
    now: u64,
) -> ManagerView<K, P, S> {
    let target = d.target.spec_key();
    let v1 = ensured(v, target);
    let v2 = delivered_on(
        v1,
        target,
        RegionInput::Event(RegionEvent::Forward(d.arrival)),
        arrival_on_fail(d, now),
    );
    match d.client {
        Some(c) => {
            let v3 = ManagerView {
                homes: v2.homes.insert(c, target),
                outbox: v2.outbox.push(Action::SendPlayerRegion { to: c, home: Some(d.target) }),
                ..v2
            };
            refreshed(refreshed(v3, from, now), target, now)
        },
        None => v2,
    }
}

/// What a failed arrival delivery asks for: a carried player's target is
/// re-evaluated for keep-alive right after the arrival, so a target that
/// dies on it is re-evaluated once respawned.
pub open spec fn arrival_on_fail<K>(d: Departure<K>, now: u64) -> OnFail {
    match d.client {
        Some(_) => OnFail::RespawnThenRefresh { now_ms: now },
        None => OnFail::Respawn,
    }
}

/// `departed` for each departure in turn.
pub open spec fn depart_each<K, P, S>(
    v: ManagerView<K, P, S>,
    from: (i32, i32),
    ds: Seq<Departure<K>>,
    now: u64,
) -> ManagerView<K, P, S>
    decreases ds.len(),
{
    if ds.len() == 0 {
        v
    } else {
        departed(depart_each(v, from, ds.drop_last(), now), from, ds.last(), now)
    }
}

/// A ghost refresh reaches its target only when the target is running and
/// not stopping: ghost updates never wake a region.
pub open spec fn ghosted<K, P, S>(v: ManagerView<K, P, S>, g: (K, RegionCoords)) -> ManagerView<
    K,
    P,
    S,
> {
    let target = g.1.spec_key();
    if v.regions.contains_key(target) && !v.regions[target].stopping {
        delivered(v, target, RegionInput::Event(RegionEvent::Forward(g.0)))
    } else {
        v
    }
}

/// `ghosted` for each ghost refresh in turn.
pub open spec fn ghost_each<K, P, S>(v: ManagerView<K, P, S>, gs: Seq<(K, RegionCoords)>) -> ManagerView<
    K,
    P,
    S,
>
    decreases gs.len(),
{
    if gs.len() == 0 {
        v
    } else {
        ghosted(ghost_each(v, gs.drop_last()), gs.last())
    }
}

/// `to` lists exactly the subscribers of region `rc`, each once, in
/// ascending order.
pub open spec fn sends_to_subscribers<K, P, S>(
    v: ManagerView<K, P, S>,
    rc: (i32, i32),
    to: Vec<ClientId>,
) -> bool {
    &&& to@.to_set() == v.regions[rc].subscribers
    &&& to@.no_duplicates()
    &&& forall|a: int, b: int| 0 <= a < b < to@.len() ==> to@[a] < to@[b]
}

/// Region `rc` has had no keep-alive reason for the whole grace period: it
/// runs, is not already stopping, has no subscriber, is no connected
/// client's home, and its grace timer started at least `UNLOAD_GRACE_MS`
/// before `now`.
pub open spec fn expired<K, P, S>(v: ManagerView<K, P, S>, rc: (i32, i32), now: u64) -> bool {
    &&& v.regions.contains_key(rc)
    &&& !v.regions[rc].stopping
    &&& v.regions[rc].subscribers.is_empty()
    &&& !is_home(v, rc)
    &&& match v.regions[rc].empty_since {
        Some(t) => (if now >= t {
            now - t
        } else {
            0
        }) >= UNLOAD_GRACE_MS,
        None => false,
    }
}

/// Region `rc` is asked to stop: by `maintain` when expired, by
/// `shutdown_all` whenever it runs and is not already stopping.
pub open spec fn stop_due<K, P, S>(v: ManagerView<K, P, S>, rc: (i32, i32), expire_only: bool, now: u64) -> bool {
    if expire_only {
        expired(v, rc, now)
    } else {
        v.regions.contains_key(rc) && !v.regions[rc].stopping
    }
}

/// The action asks a running region to stop that has no subscriber and is
/// no connected client's home in `v`.
pub open spec fn stops_idle_region<K, P, S>(v: ManagerView<K, P, S>, a: Action<K, P, S>) -> bool {
    match a {
        Action::Deliver { region, input: RegionInput::Shutdown, .. } => {
            &&& v.regions.contains_key(region.spec_key())
            &&& v.regions[region.spec_key()].subscribers.is_empty()
            &&& !is_home(v, region.spec_key())
        },
        _ => false,
    }
}

/// The shutdown request for region `rc`.
pub open spec fn shutdown_action<K, P, S>(rc: (i32, i32), on_fail: OnFail) -> Action<K, P, S> {
    Action::Deliver { region: coords(rc), input: RegionInput::Shutdown, on_fail }
}

/// The regions due to stop are marked stopping; nothing else changes but
/// the queued shutdown requests.
pub open spec fn marked_stopping<K, P, S>(v: ManagerView<K, P, S>, expire_only: bool, now: u64) -> Map<
    (i32, i32),
    LinkView,
> {
    Map::new(
        |rc: (i32, i32)| v.regions.contains_key(rc),
        |rc: (i32, i32)|
            if stop_due(v, rc, expire_only, now) {
                LinkView { stopping: true, ..v.regions[rc] }
            } else {
                v.regions[rc]
            },
    )
}

/// The resnapshot request for `client` after region `rc` was respawned.
pub open spec fn resnapshot_action<K, P, S>(rc: (i32, i32), client: ClientId) -> Action<K, P, S> {
    Action::Deliver {
        region: coords(rc),
        input: RegionInput::RequestSnapshot(client),
        on_fail: OnFail::Ignore,
    }
}

/// A dead region is reaped and respawned (from its parked state if any)
/// with its subscribers kept; the resnapshot requests are queued after.
pub open spec fn respawned<K, P, S>(v: ManagerView<K, P, S>, rc: (i32, i32)) -> ManagerView<K, P, S> {
    let subs = v.regions[rc].subscribers;
    let v1 = ManagerView {
        regions: v.regions.remove(rc),
        outbox: v.outbox.push(Action::Reap(coords(rc))),
        ..v
    };
    let v2 = ensured(v1, rc);
    ManagerView { regions: v2.regions.insert(rc, LinkView { subscribers: subs, ..fresh_link() }), ..v2 }
}

/// The event connects a client that already has a live session (its
/// session is replaced by an empty one while its links may still list it).
pub open spec fn reconnects_connected<K, P, S>(v: ManagerView<K, P, S>, ev: ServerEvent<K>) -> bool {
    ev matches ServerEvent::ClientConnected(id) && v.sessions.contains_key(id)
}

proof fn lemma_ensured_consistent<K, P, S>(v: ManagerView<K, P, S>, rc: (i32, i32))
    requires
        subscriptions_consistent(v),
    ensures
        subscriptions_consistent(ensured(v, rc)),
        ensured(v, rc).sessions == v.sessions,
        ensured(v, rc).homes == v.homes,
        ensured(v, rc).regions.contains_key(rc),
        forall|r: (i32, i32)| #[trigger]
            v.regions.contains_key(r) ==> ensured(v, rc).regions.contains_key(r) && ensured(
                v,
                rc,
            ).regions[r] == v.regions[r],
{
    let w = ensured(v, rc);
    assert forall|r: (i32, i32), c: ClientId|
        w.regions.contains_key(r) && (#[trigger] w.regions[r].subscribers.contains(c)
            || #[trigger] w.regions[r].pending.contains(c)) implies w.sessions.contains_key(c)
        && w.sessions[c].contains(r) by {
        if !v.regions.contains_key(rc) && r == rc {
            assert(!fresh_link().subscribers.contains(c));
            assert(!fresh_link().pending.contains(c));
        } else {
            assert(v.regions[r].subscribers.contains(c) || v.regions[r].pending.contains(c));
        }
    }
}

proof fn lemma_delivered_consistent<K, P, S>(
    v: ManagerView<K, P, S>,
    rc: (i32, i32),
    input: RegionInput<K>,
)
    requires
        subscriptions_consistent(v),
    ensures
        subscriptions_consistent(delivered(v, rc, input)),
        delivered(v, rc, input).regions == v.regions,
        delivered(v, rc, input).sessions == v.sessions,
        delivered(v, rc, input).homes == v.homes,
{
}

proof fn lemma_delivered_on_consistent<K, P, S>(
    v: ManagerView<K, P, S>,
    rc: (i32, i32),
    input: RegionInput<K>,
    on_fail: OnFail,
)
    requires
        subscriptions_consistent(v),
    ensures
        subscriptions_consistent(delivered_on(v, rc, input, on_fail)),
        delivered_on(v, rc, input, on_fail).regions == v.regions,
        delivered_on(v, rc, input, on_fail).sessions == v.sessions,
        delivered_on(v, rc, input, on_fail).homes == v.homes,
{
}

proof fn lemma_refreshed_consistent<K, P, S>(v: ManagerView<K, P, S>, rc: (i32, i32), now: u64)
    requires
        subscriptions_consistent(v),
    ensures
        subscriptions_consistent(refreshed(v, rc, now)),
        refreshed(v, rc, now).sessions == v.sessions,
        refreshed(v, rc, now).homes == v.homes,
        refreshed(v, rc, now).regions.dom() == v.regions.dom(),
        forall|r: (i32, i32)| #[trigger]
            v.regions.contains_key(r) ==> refreshed(v, rc, now).regions[r].stopping
                == v.regions[r].stopping,
{
    let w = refreshed(v, rc, now);
    if v.regions.contains_key(rc) {
        assert(w.regions.dom() =~= v.regions.dom());
    }
    assert forall|r: (i32, i32), c: ClientId|
        w.regions.contains_key(r) && (#[trigger] w.regions[r].subscribers.contains(c)
            || #[trigger] w.regions[r].pending.contains(c)) implies w.sessions.contains_key(c)
        && w.sessions[c].contains(r) by {
        assert(v.regions[r].subscribers.contains(c) || v.regions[r].pending.contains(c));
    }
}

proof fn lemma_subscribed_consistent<K, P, S>(v: ManagerView<K, P, S>, client: ClientId, rc: (i32, i32))
    requires
        subscriptions_consistent(v),
    ensures
        subscriptions_consistent(subscribed(v, client, rc)),
        subscribed(v, client, rc).homes == v.homes,
{
    if v.sessions.contains_key(client) {
        let v1 = ManagerView {
            sessions: v.sessions.insert(client, v.sessions[client].insert(rc)),
            ..v
        };
        assert forall|r: (i32, i32), c: ClientId|
            v1.regions.contains_key(r) && (#[trigger] v1.regions[r].subscribers.contains(c)
                || #[trigger] v1.regions[r].pending.contains(c)) implies v1.sessions.contains_key(c)
            && v1.sessions[c].contains(r) by {
            assert(v.regions[r].subscribers.contains(c) || v.regions[r].pending.contains(c));
        }
        lemma_ensured_consistent(v1, rc);
        let v2 = ensured(v1, rc);
        let l = v2.regions[rc];
        if l.stopping {
            let w = subscribed(v, client, rc);
            assert forall|r: (i32, i32), c: ClientId|
                w.regions.contains_key(r) && (#[trigger] w.regions[r].subscribers.contains(c)
                    || #[trigger] w.regions[r].pending.contains(c)) implies w.sessions.contains_key(
                c,
            ) && w.sessions[c].contains(r) by {
                if r == rc {
                    if c != client {
                        if w.regions[r].pending.contains(c) {
                            let j = choose|j: int|
                                0 <= j < w.regions[r].pending.len()
                                    && w.regions[r].pending[j] == c;
                            assert(l.pending[j] == c);
                        }
                        assert(l.subscribers.contains(c) || l.pending.contains(c));
                    }
                } else {
                    assert(v2.regions[r].subscribers.contains(c) || v2.regions[r].pending.contains(
                        c,
                    ));
                }
            }
        } else {
            let v3 = ManagerView {
                regions: v2.regions.insert(
                    rc,
                    LinkView { subscribers: l.subscribers.insert(client), empty_since: None, ..l },
                ),
                ..v2
            };
            assert forall|r: (i32, i32), c: ClientId|
                v3.regions.contains_key(r) && (#[trigger] v3.regions[r].subscribers.contains(c)
                    || #[trigger] v3.regions[r].pending.contains(c)) implies v3.sessions.contains_key(
                c,
            ) && v3.sessions[c].contains(r) by {
                if r == rc {
                    if c != client {
                        assert(l.subscribers.contains(c) || l.pending.contains(c));
                    }
                } else {
                    assert(v2.regions[r].subscribers.contains(c) || v2.regions[r].pending.contains(
                        c,
                    ));
                }
            }
            lemma_delivered_consistent(v3, rc, RegionInput::RequestSnapshot(client));
        }
    }
}

proof fn lemma_link_left_consistent<K, P, S>(
    v: ManagerView<K, P, S>,
    client: ClientId,
    rc: (i32, i32),
    now: u64,
)
    requires
        subscriptions_consistent(v),
    ensures
        subscriptions_consistent(link_left(v, client, rc, now)),
        link_left(v, client, rc, now).sessions == v.sessions,
        link_left(v, client, rc, now).homes == v.homes,
        !link_left(v, client, rc, now).regions.contains_key(rc) || (!link_left(
            v,
            client,
            rc,
            now,
        ).regions[rc].subscribers.contains(client) && !link_left(
            v,
            client,
            rc,
            now,
        ).regions[rc].pending.contains(client)),
{
    if v.regions.contains_key(rc) {
        let l = link_unsubscribed(v.regions[rc], client);
        let v1 = ManagerView { regions: v.regions.insert(rc, l), ..v };
        assert(!l.pending.contains(client)) by {
            if l.pending.contains(client) {
                let j = choose|j: int| 0 <= j < l.pending.len() && l.pending[j] == client;
                v.regions[rc].pending.lemma_filter_pred(others(client), j);
            }
        }
        assert forall|r: (i32, i32), c: ClientId|
            v1.regions.contains_key(r) && (#[trigger] v1.regions[r].subscribers.contains(c)
                || #[trigger] v1.regions[r].pending.contains(c)) implies v1.sessions.contains_key(c)
            && v1.sessions[c].contains(r) by {
            if r == rc {
                if l.pending.contains(c) {
                    v.regions[rc].pending.lemma_filter_contains_rev(others(client), c);
                }
                assert(v.regions[r].subscribers.contains(c) || v.regions[r].pending.contains(c));
            } else {
                assert(v.regions[r].subscribers.contains(c) || v.regions[r].pending.contains(c));
            }
        }
        lemma_refreshed_consistent(v1, rc, now);
    }
}

proof fn lemma_unsubscribed_consistent<K, P, S>(
    v: ManagerView<K, P, S>,
    client: ClientId,
    rc: (i32, i32),
    now: u64,
)
    requires
        subscriptions_consistent(v),
    ensures
        subscriptions_consistent(unsubscribed(v, client, rc, now)),
{
    let v1 = if v.sessions.contains_key(client) {
        ManagerView { sessions: v.sessions.insert(client, v.sessions[client].remove(rc)), ..v }
    } else {
        v
    };
    let w = unsubscribed(v, client, rc, now);
    lemma_link_left_consistent(v, client, rc, now);
    let u = link_left(v, client, rc, now);
    // The same link edit, checked against the shrunken session.
    assert(w.regions == u.regions);
    assert forall|r: (i32, i32), c: ClientId|
        w.regions.contains_key(r) && (#[trigger] w.regions[r].subscribers.contains(c)
            || #[trigger] w.regions[r].pending.contains(c)) implies w.sessions.contains_key(c)
        && w.sessions[c].contains(r) by {
        assert(u.regions[r].subscribers.contains(c) || u.regions[r].pending.contains(c));
        if c == client && r == rc {
            assert(false);
        }
    }
}

proof fn lemma_disconnected_consistent<K, P, S>(v: ManagerView<K, P, S>, client: ClientId, now: u64)
    requires
        subscriptions_consistent(v),
    ensures
        subscriptions_consistent(disconnected(v, client, now)),
{
    if v.sessions.contains_key(client) {
        let subs = v.sessions[client];
        let v1 = ManagerView { sessions: v.sessions.remove(client), ..v };
        let v2 = ManagerView {
            regions: Map::new(
                |rc: (i32, i32)| v1.regions.contains_key(rc),
                |rc: (i32, i32)|
                    if subs.contains(rc) {
                        link_refreshed(
                            link_unsubscribed(v1.regions[rc], client),
                            is_home(v1, rc),
                            now,
                        )
                    } else {
                        v1.regions[rc]
                    },
            ),
            ..v1
        };
        assert forall|r: (i32, i32), c: ClientId|
            v2.regions.contains_key(r) && (#[trigger] v2.regions[r].subscribers.contains(c)
                || #[trigger] v2.regions[r].pending.contains(c)) implies v2.sessions.contains_key(c)
            && v2.sessions[c].contains(r) by {
            if subs.contains(r) {
                let l = v.regions[r];
                if v2.regions[r].pending.contains(c) {
                    l.pending.lemma_filter_contains_rev(others(client), c);
                    if c == client {
                        let j = choose|j: int|
                            0 <= j < l.pending.filter(others(client)).len()
                                && l.pending.filter(others(client))[j] == c;
                        l.pending.lemma_filter_pred(others(client), j);
                        assert(others(client)(l.pending.filter(others(client))[j]));
                    }
                }
                assert(l.subscribers.contains(c) || l.pending.contains(c));
            } else {
                assert(v.regions[r].subscribers.contains(c) || v.regions[r].pending.contains(c));
            }
        }
        lemma_refreshed_consistent(v2, client_home(v2, client), now);
    } else {
        lemma_refreshed_consistent(v, client_home(v, client), now);
    }
}

/// The region a `home_refreshed` call re-evaluates (any key when the
/// client has no home; then nothing is re-evaluated).
spec fn client_home<K, P, S>(v: ManagerView<K, P, S>, client: ClientId) -> (i32, i32) {
    v.homes[client]
}

proof fn lemma_subscribe_each_consistent<K, P, S>(
    v: ManagerView<K, P, S>,
    clients: Seq<ClientId>,
    rc: (i32, i32),
)
    requires
        subscriptions_consistent(v),
    ensures
        subscriptions_consistent(subscribe_each(v, clients, rc)),
        subscribe_each(v, clients, rc).homes == v.homes,
    decreases clients.len(),
{
    if clients.len() > 0 {
        lemma_subscribe_each_consistent(v, clients.drop_last(), rc);
        lemma_subscribed_consistent(subscribe_each(v, clients.drop_last(), rc), clients.last(), rc);
    }
}

proof fn lemma_stopped_consistent<K, P, S>(
    v: ManagerView<K, P, S>,
    rc: (i32, i32),
    state: SerializedRegion,
)
    requires
        subscriptions_consistent(v),
    ensures
        subscriptions_consistent(stopped(v, rc, state)),
{
    let pending = if v.regions.contains_key(rc) {
        v.regions[rc].pending
    } else {
        Seq::empty()
    };
    let v1 = ManagerView {
        parked: v.parked.insert(rc, state),
        regions: v.regions.remove(rc),
        outbox: v.outbox.push(Action::Reap(coords(rc))),
        ..v
    };
    assert forall|r: (i32, i32), c: ClientId|
        v1.regions.contains_key(r) && (#[trigger] v1.regions[r].subscribers.contains(c)
            || #[trigger] v1.regions[r].pending.contains(c)) implies v1.sessions.contains_key(c)
        && v1.sessions[c].contains(r) by {
        assert(v.regions[r].subscribers.contains(c) || v.regions[r].pending.contains(c));
    }
    lemma_subscribe_each_consistent(v1, pending, rc);
}

proof fn lemma_departed_consistent<K, P, S>(
    v: ManagerView<K, P, S>,
    from: (i32, i32),
    d: Departure<K>,
    now: u64,
)
    requires
        subscriptions_consistent(v),
    ensures
        subscriptions_consistent(departed(v, from, d, now)),
{
    let target = d.target.spec_key();
    lemma_ensured_consistent(v, target);
    let v1 = ensured(v, target);
    let on_fail = arrival_on_fail(d, now);
    lemma_delivered_on_consistent(
        v1,
        target,
        RegionInput::Event(RegionEvent::Forward(d.arrival)),
        on_fail,
    );
    let v2 = delivered_on(v1, target, RegionInput::Event(RegionEvent::Forward(d.arrival)), on_fail);
    match d.client {
        Some(c) => {
            let v3 = ManagerView {
                homes: v2.homes.insert(c, target),
                outbox: v2.outbox.push(Action::SendPlayerRegion { to: c, home: Some(d.target) }),
                ..v2
            };
            assert forall|r: (i32, i32), c2: ClientId|
                v3.regions.contains_key(r) && (#[trigger] v3.regions[r].subscribers.contains(c2)
                    || #[trigger] v3.regions[r].pending.contains(c2)) implies v3.sessions.contains_key(
                c2,
            ) && v3.sessions[c2].contains(r) by {
                assert(v2.regions[r].subscribers.contains(c2) || v2.regions[r].pending.contains(c2));
            }
            lemma_refreshed_consistent(v3, from, now);
            lemma_refreshed_consistent(refreshed(v3, from, now), target, now);
        },
        None => {},
    }
}

proof fn lemma_depart_each_consistent<K, P, S>(
    v: ManagerView<K, P, S>,
    from: (i32, i32),
    ds: Seq<Departure<K>>,
    now: u64,
)
    requires
        subscriptions_consistent(v),
    ensures
        subscriptions_consistent(depart_each(v, from, ds, now)),
    decreases ds.len(),
{
    if ds.len() > 0 {
        lemma_depart_each_consistent(v, from, ds.drop_last(), now);
        lemma_departed_consistent(depart_each(v, from, ds.drop_last(), now), from, ds.last(), now);
    }
}

proof fn lemma_server_event_consistent<K, P, S>(v: ManagerView<K, P, S>, ev: ServerEvent<K>, now: u64)
    requires
        subscriptions_consistent(v),
        !reconnects_connected(v, ev),
    ensures
        subscriptions_consistent(after_server_event(v, ev, now)),
{
    match ev {
        ServerEvent::ClientConnected(id) => {
            let v1 = ManagerView { sessions: v.sessions.insert(id, Set::empty()), ..v };
            assert forall|r: (i32, i32), c: ClientId|
                v1.regions.contains_key(r) && (#[trigger] v1.regions[r].subscribers.contains(c)
                    || #[trigger] v1.regions[r].pending.contains(c)) implies v1.sessions.contains_key(
                c,
            ) && v1.sessions[c].contains(r) by {
                assert(v.regions[r].subscribers.contains(c) || v.regions[r].pending.contains(c));
            }
            if !v.homes.contains_key(id) {
                lemma_ensured_consistent(v1, spawn_key());
                let v2 = ensured(v1, spawn_key());
                let v3 = ManagerView { homes: v2.homes.insert(id, spawn_key()), ..v2 };
                lemma_delivered_consistent(
                    v3,
                    spawn_key(),
                    RegionInput::Event(RegionEvent::CreateClient(id)),
                );
            }
        },
        ServerEvent::ClientDisconnected(id) => {
            lemma_disconnected_consistent(v, id, now);
        },
        ServerEvent::ClientPacket(packet, id) => match packet {
            ClientPacket::RequestRegionConnection(rc) => {
                lemma_subscribed_consistent(v, id, rc.spec_key());
            },
            ClientPacket::ReleaseRegionConnection(rc) => {
                lemma_unsubscribed_consistent(v, id, rc.spec_key(), now);
            },
            _ => {},
        },
    }
}

proof fn lemma_marked_stopping_consistent<K, P, S>(
    v: ManagerView<K, P, S>,
    w: ManagerView<K, P, S>,
    expire_only: bool,
    now: u64,
)
    requires
        subscriptions_consistent(v),
        w.regions == marked_stopping(v, expire_only, now),
        w.sessions == v.sessions,
    ensures
        subscriptions_consistent(w),
{
    assert forall|r: (i32, i32), c: ClientId|
        w.regions.contains_key(r) && (#[trigger] w.regions[r].subscribers.contains(c)
            || #[trigger] w.regions[r].pending.contains(c)) implies w.sessions.contains_key(c)
        && w.sessions[c].contains(r) by {
        assert(v.regions[r].subscribers.contains(c) || v.regions[r].pending.contains(c));
    }
}

proof fn lemma_respawned_consistent<K, P, S>(v: ManagerView<K, P, S>, rc: (i32, i32))
    requires
        subscriptions_consistent(v),
        v.regions.contains_key(rc),
    ensures
        subscriptions_consistent(respawned(v, rc)),
{
    let subs = v.regions[rc].subscribers;
    let v1 = ManagerView {
        regions: v.regions.remove(rc),
        outbox: v.outbox.push(Action::Reap(coords(rc))),
        ..v
    };
    assert forall|r: (i32, i32), c: ClientId|
        v1.regions.contains_key(r) && (#[trigger] v1.regions[r].subscribers.contains(c)
            || #[trigger] v1.regions[r].pending.contains(c)) implies v1.sessions.contains_key(c)
        && v1.sessions[c].contains(r) by {
        assert(v.regions[r].subscribers.contains(c) || v.regions[r].pending.contains(c));
    }
    lemma_ensured_consistent(v1, rc);
    let v2 = ensured(v1, rc);
    let w = respawned(v, rc);
    assert forall|r: (i32, i32), c: ClientId|
        w.regions.contains_key(r) && (#[trigger] w.regions[r].subscribers.contains(c)
            || #[trigger] w.regions[r].pending.contains(c)) implies w.sessions.contains_key(c)
        && w.sessions[c].contains(r) by {
        if r == rc {
            assert(v.regions[r].subscribers.contains(c));
        } else {
            assert(v2.regions[r].subscribers.contains(c) || v2.regions[r].pending.contains(c));
        }
    }
}

/// The action delivers an input to a region that runs and is not stopping.
pub open spec fn delivers_to_awake<K, P, S>(v: ManagerView<K, P, S>, a: Action<K, P, S>) -> bool {
    match a {
        Action::Deliver { region, on_fail, .. } => on_fail == OnFail::Respawn
            && v.regions.contains_key(region.spec_key()) && !v.regions[region.spec_key()].stopping,
        _ => false,
    }
}

/// Ghost refreshes never wake, create or change a region, a session or a
/// home: they only queue deliveries to running regions that are not
/// stopping.
pub proof fn lemma_ghost_updates_never_wake<K, P, S>(
    v: ManagerView<K, P, S>,
    gs: Seq<(K, RegionCoords)>,
)
    ensures
        ghost_each(v, gs).regions == v.regions,
        ghost_each(v, gs).parked == v.parked,
        ghost_each(v, gs).sessions == v.sessions,
        ghost_each(v, gs).homes == v.homes,
        v.outbox.len() <= ghost_each(v, gs).outbox.len() <= v.outbox.len() + gs.len(),
        forall|i: int|
            v.outbox.len() <= i < ghost_each(v, gs).outbox.len() ==> delivers_to_awake(
                v,
                #[trigger] ghost_each(v, gs).outbox[i],
            ),
        forall|i: int|
            0 <= i < v.outbox.len() ==> #[trigger] ghost_each(v, gs).outbox[i] == v.outbox[i],
    decreases gs.len(),
{
    if gs.len() > 0 {
        lemma_ghost_updates_never_wake(v, gs.drop_last());
        let w = ghost_each(v, gs.drop_last());
        assert forall|i: int| 0 <= i < v.outbox.len() implies #[trigger] ghost_each(v, gs).outbox[i]
            == v.outbox[i] by {
            assert(w.outbox[i] == v.outbox[i]);
        }
    }
}

/// An arrival always wakes its target: after a departure the target region
/// runs and was sent the arrival, whatever its state before.
pub proof fn lemma_arrivals_wake_target<K, P, S>(
    v: ManagerView<K, P, S>,
    from: (i32, i32),
    d: Departure<K>,
    now: u64,
)
    ensures
        departed(v, from, d, now).regions.contains_key(d.target.spec_key()),
        !v.regions.contains_key(d.target.spec_key()) ==> !departed(v, from, d, now).parked.contains_key(
            d.target.spec_key(),
        ),
        ensured(v, d.target.spec_key()).outbox.push(
            Action::Deliver {
                region: coords(d.target.spec_key()),
                input: RegionInput::Event(RegionEvent::Forward(d.arrival)),
                on_fail: arrival_on_fail(d, now),
            },
        ).is_prefix_of(departed(v, from, d, now).outbox),
{
    let target = d.target.spec_key();
    let v2 = delivered_on(
        ensured(v, target),
        target,
        RegionInput::Event(RegionEvent::Forward(d.arrival)),
        arrival_on_fail(d, now),
    );
    match d.client {
        Some(c) => {
            let v3 = ManagerView {
                homes: v2.homes.insert(c, target),
                outbox: v2.outbox.push(Action::SendPlayerRegion { to: c, home: Some(d.target) }),
                ..v2
            };
            assert(v2.outbox.is_prefix_of(v3.outbox));
        },
        None => {},
    }
}

/// A disconnect keeps every player's home: the player stays in its region
/// (running or parked), and no region is created or woken.
pub proof fn lemma_disconnect_keeps_homes<K, P, S>(v: ManagerView<K, P, S>, client: ClientId, now: u64)
    ensures
        disconnected(v, client, now).homes == v.homes,
        disconnected(v, client, now).regions.dom() == v.regions.dom(),
        disconnected(v, client, now).parked == v.parked,
        disconnected(v, client, now).outbox == v.outbox,
        !disconnected(v, client, now).sessions.contains_key(client),
{
    if v.sessions.contains_key(client) {
        let subs = v.sessions[client];
        let v1 = ManagerView { sessions: v.sessions.remove(client), ..v };
        let v2 = ManagerView {
            regions: Map::new(
                |rc: (i32, i32)| v1.regions.contains_key(rc),
                |rc: (i32, i32)|
                    if subs.contains(rc) {
                        link_refreshed(
                            link_unsubscribed(v1.regions[rc], client),
                            is_home(v1, rc),
                            now,
                        )
                    } else {
                        v1.regions[rc]
                    },
            ),
            ..v1
        };
        assert(v2.regions.dom() =~= v.regions.dom());
        lemma_refreshed_dom(v2, client_home(v2, client), now);
    } else {
        lemma_refreshed_dom(v, client_home(v, client), now);
    }
}

proof fn lemma_refreshed_dom<K, P, S>(v: ManagerView<K, P, S>, rc: (i32, i32), now: u64)
    ensures
        refreshed(v, rc, now).regions.dom() == v.regions.dom(),
{
    if v.regions.contains_key(rc) {
        assert(refreshed(v, rc, now).regions.dom() =~= v.regions.dom());
    }
}

/// Parking round trip: a region that stops with state `state` (and no
/// subscribe waiting on it) is parked with exactly that state, and the next
/// subscribe by a connected client respawns it from exactly that state.
pub proof fn lemma_park_then_subscribe_restores<K, P, S>(
    v: ManagerView<K, P, S>,
    rc: (i32, i32),
    state: SerializedRegion,
    client: ClientId,
)
    requires
        v.regions.contains_key(rc),
        v.regions[rc].pending.len() == 0,
        v.sessions.contains_key(client),
    ensures
        stopped(v, rc, state).parked.contains_key(rc),
        stopped(v, rc, state).parked[rc] == state,
        !stopped(v, rc, state).regions.contains_key(rc),
        subscribed(stopped(v, rc, state), client, rc).outbox[stopped(v, rc, state).outbox.len() as int]
            == (Action::<K, P, S>::Spawn { region: coords(rc), parked: Some(state) }),
        subscribed(stopped(v, rc, state), client, rc).regions.contains_key(rc),
        !subscribed(stopped(v, rc, state), client, rc).parked.contains_key(rc),
{
    let w = stopped(v, rc, state);
    assert(v.regions[rc].pending =~= Seq::<ClientId>::empty());
    let w1 = ManagerView { sessions: w.sessions.insert(client, w.sessions[client].insert(rc)), ..w };
    let w2 = ensured(w1, rc);
    assert(w2.outbox == w.outbox.push(Action::Spawn { region: coords(rc), parked: Some(state) }));
}

/// Waking a region that is not running spawns it from its parked state
/// when it has one (which then leaves the parking lot), generated
/// otherwise; a running region is left alone.
pub proof fn lemma_wake_uses_parked_state<K, P, S>(v: ManagerView<K, P, S>, rc: (i32, i32))
    ensures
        v.regions.contains_key(rc) ==> ensured(v, rc) == v,
        !v.regions.contains_key(rc) ==> {
            &&& ensured(v, rc).outbox == v.outbox.push(
                Action::Spawn {
                    region: coords(rc),
                    parked: if v.parked.contains_key(rc) {
                        Some(v.parked[rc])
                    } else {
                        None
                    },
                },
            )
            &&& ensured(v, rc).regions == v.regions.insert(rc, fresh_link())
            &&& !ensured(v, rc).parked.contains_key(rc)
        },
{
}

/// A reconnect creates nothing: a client that already has a home gets a
/// fresh, empty session and no region is woken and no player is created.
pub proof fn lemma_reconnect_creates_nothing<K, P, S>(v: ManagerView<K, P, S>, id: ClientId, now: u64)
    requires
        v.homes.contains_key(id),
    ensures
        after_server_event(v, ServerEvent::ClientConnected(id), now) == (ManagerView {
            sessions: v.sessions.insert(id, Set::empty()),
            ..v
        }),
{
}

/// A first connect creates the player, once: its home becomes the spawn
/// region, which is woken and sent the creation event.
pub proof fn lemma_first_connect_creates_player<K, P, S>(v: ManagerView<K, P, S>, id: ClientId, now: u64)
    requires
        !v.homes.contains_key(id),
    ensures
        after_server_event(v, ServerEvent::ClientConnected(id), now).homes == v.homes.insert(
            id,
            spawn_key(),
        ),
        after_server_event(v, ServerEvent::ClientConnected(id), now).regions.contains_key(
            spawn_key(),
        ),
        after_server_event(v, ServerEvent::ClientConnected(id), now).outbox.last() == (Action::<
            K,
            P,
            S,
        >::Deliver {
            region: coords(spawn_key()),
            input: RegionInput::Event(RegionEvent::CreateClient(id)),
            on_fail: OnFail::Respawn,
        }),
{
}

proof fn lemma_refreshed_tracks<K, P, S>(v: ManagerView<K, P, S>, rc: (i32, i32), now: u64)
    ensures
        timer_tracks_keepalive(refreshed(v, rc, now), rc),
        refreshed(v, rc, now).sessions == v.sessions,
        refreshed(v, rc, now).homes == v.homes,
        refreshed(v, rc, now).regions.dom() == v.regions.dom(),
        v.regions.contains_key(rc) ==> {
            &&& refreshed(v, rc, now).regions[rc].subscribers == v.regions[rc].subscribers
            &&& refreshed(v, rc, now).regions[rc].stopping == v.regions[rc].stopping
            &&& refreshed(v, rc, now).regions[rc].empty_since == (if v.regions[rc].subscribers.is_empty()
                && !is_home(v, rc) {
                Some(
                    match v.regions[rc].empty_since {
                        Some(t) => t,
                        None => now,
                    },
                )
            } else {
                None
            })
        },
        forall|r: (i32, i32)|
            r != rc && v.regions.contains_key(r) ==> #[trigger] refreshed(v, rc, now).regions[r]
                == v.regions[r],
{
    lemma_refreshed_dom(v, rc, now);
    lemma_is_home_same(refreshed(v, rc, now), v, rc);
}

/// A disconnect re-evaluates every region the client was subscribed to:
/// the client leaves its subscribers, and its grace timer then runs exactly
/// when it is left with no subscriber and no connected client's home (a
/// timer that was not running starts at the disconnect, so `maintain` a
/// grace period later asks the region to stop). The client's home region is
/// re-evaluated the same way.
pub proof fn lemma_disconnect_restarts_grace_timers<K, P, S>(
    v: ManagerView<K, P, S>,
    client: ClientId,
    now: u64,
    rc: (i32, i32),
)
    requires
        v.sessions.contains_key(client),
        v.sessions[client].contains(rc),
    ensures
        ({
            let w = after_server_event(v, ServerEvent::ClientDisconnected(client), now);
            &&& timer_tracks_keepalive(w, rc)
            &&& v.homes.contains_key(client) ==> timer_tracks_keepalive(w, v.homes[client])
            &&& v.regions.contains_key(rc) ==> w.regions.contains_key(rc)
                && w.regions[rc].subscribers == v.regions[rc].subscribers.remove(client)
                && w.regions[rc].stopping == v.regions[rc].stopping
            &&& v.regions.contains_key(rc) && !v.regions[rc].stopping && v.regions[rc].empty_since
                is None && w.regions[rc].subscribers.is_empty() && !is_home(w, rc) && now
                + UNLOAD_GRACE_MS <= u64::MAX ==> expired(w, rc, (now + UNLOAD_GRACE_MS) as u64)
        }),
{
    let subs = v.sessions[client];
    let v1 = ManagerView { sessions: v.sessions.remove(client), ..v };
    let v2 = ManagerView {
        regions: Map::new(
            |r: (i32, i32)| v1.regions.contains_key(r),
            |r: (i32, i32)|
                if subs.contains(r) {
                    link_refreshed(link_unsubscribed(v1.regions[r], client), is_home(v1, r), now)
                } else {
                    v1.regions[r]
                },
        ),
        ..v1
    };
    let w = after_server_event(v, ServerEvent::ClientDisconnected(client), now);
    assert(w == home_refreshed(v2, client, now));
    lemma_is_home_same(v1, v2, rc);
    assert(v2.regions.dom() =~= v.regions.dom());
    if v.homes.contains_key(client) {
        let h = v.homes[client];
        lemma_refreshed_tracks(v2, h, now);
        lemma_is_home_same(w, v2, rc);
        if v.regions.contains_key(rc) && rc != h {
            assert(w.regions[rc] == v2.regions[rc]);
        }
    } else {
        assert(w == v2);
    }
}

/// A release re-evaluates the region: the client leaves its subscribers
/// and its session no longer lists it, and the region's grace timer then
/// runs exactly when it has no subscriber and is no connected client's
/// home. Other regions are unchanged.
pub proof fn lemma_release_reevaluates_region<K, P, S>(
    v: ManagerView<K, P, S>,
    client: ClientId,
    rc: RegionCoords,
    now: u64,
)
    requires
        v.sessions.contains_key(client),
    ensures
        ({
            let w = after_server_event(
                v,
                ServerEvent::ClientPacket(ClientPacket::ReleaseRegionConnection(rc), client),
                now,
            );
            let k = rc.spec_key();
            &&& timer_tracks_keepalive(w, k)
            &&& w.sessions.contains_key(client) && !w.sessions[client].contains(k)
            &&& w.regions.dom() == v.regions.dom()
            &&& v.regions.contains_key(k) ==> w.regions[k].subscribers
                == v.regions[k].subscribers.remove(client)
            &&& forall|r: (i32, i32)|
                r != k && v.regions.contains_key(r) ==> #[trigger] w.regions[r] == v.regions[r]
        }),
{
    let k = rc.spec_key();
    let v1 = ManagerView { sessions: v.sessions.insert(client, v.sessions[client].remove(k)), ..v };
    if v.regions.contains_key(k) {
        let m = ManagerView {
            regions: v1.regions.insert(k, link_unsubscribed(v1.regions[k], client)),
            ..v1
        };
        assert(m.regions.dom() =~= v.regions.dom());
        lemma_refreshed_tracks(m, k, now);
    }
}

/// A subscribe by a connected client to a region that is not stopping
/// wakes the region, makes the client a subscriber, clears the region's
/// grace timer and requests a snapshot for the client; the client's
/// session lists the region.
pub proof fn lemma_subscribe_keeps_region_alive<K, P, S>(
    v: ManagerView<K, P, S>,
    client: ClientId,
    rc: RegionCoords,
    now: u64,
)
    requires
        v.sessions.contains_key(client),
        !(v.regions.contains_key(rc.spec_key()) && v.regions[rc.spec_key()].stopping),
    ensures
        ({
            let w = after_server_event(
                v,
                ServerEvent::ClientPacket(ClientPacket::RequestRegionConnection(rc), client),
                now,
            );
            let k = rc.spec_key();
            &&& w.regions.contains_key(k)
            &&& w.regions[k].subscribers.contains(client)
            &&& w.regions[k].empty_since is None
            &&& timer_tracks_keepalive(w, k)
            &&& w.sessions[client].contains(k)
            &&& w.outbox.last() == (Action::<K, P, S>::Deliver {
                region: coords(k),
                input: RegionInput::RequestSnapshot(client),
                on_fail: OnFail::Respawn,
            })
        }),
{
}

/// Grace-period unloads spare every region with a keep-alive reason: a
/// region with a subscriber or that is some connected client's home is
/// never asked to stop by `maintain` and its link is left unchanged; and a
/// running region with no keep-alive reason whose timer started a full
/// grace period ago (and that is not already stopping) is asked to stop.
pub proof fn lemma_maintain_spares_kept_regions<K, P, S>(
    v: ManagerView<K, P, S>,
    rc: (i32, i32),
    now: u64,
)
    ensures
        is_home(v, rc) ==> !expired(v, rc, now),
        v.regions.contains_key(rc) && !v.regions[rc].subscribers.is_empty() ==> !expired(v, rc, now),
        v.regions.contains_key(rc) && (is_home(v, rc) || !v.regions[rc].subscribers.is_empty())
            ==> marked_stopping(v, true, now)[rc] == v.regions[rc],
        forall|t: u64|
            v.regions.contains_key(rc) && !v.regions[rc].stopping
                && v.regions[rc].subscribers.is_empty() && !is_home(v, rc)
                && v.regions[rc].empty_since == Some(t) && t + UNLOAD_GRACE_MS <= now ==> expired(
                v,
                rc,
                now,
            ),
{
}

/// A departure that carries a player re-evaluates both regions: afterwards
/// the old region's and the target's grace timers each run exactly when
/// that region has no subscriber and is no connected client's home. When
/// the old region thereby loses its last keep-alive reason (and had no
/// timer and is not stopping), `maintain` a grace period later asks it to
/// stop.
pub proof fn lemma_departure_reevaluates_both_regions<K, P, S>(
    v: ManagerView<K, P, S>,
    from: (i32, i32),
    d: Departure<K>,
    now: u64,
)
    requires
        d.client is Some,
    ensures
        ({
            let w = departed(v, from, d, now);
            &&& timer_tracks_keepalive(w, from)
            &&& timer_tracks_keepalive(w, d.target.spec_key())
            &&& from != d.target.spec_key() && v.regions.contains_key(from) ==> w.regions.contains_key(
                from,
            ) && w.regions[from].subscribers == v.regions[from].subscribers
                && w.regions[from].stopping == v.regions[from].stopping
            &&& from != d.target.spec_key() && v.regions.contains_key(from)
                && !v.regions[from].stopping && v.regions[from].empty_since is None
                && v.regions[from].subscribers.is_empty() && !is_home(w, from) && now
                + UNLOAD_GRACE_MS <= u64::MAX ==> expired(w, from, (now + UNLOAD_GRACE_MS) as u64)
        }),
{
    let target = d.target.spec_key();
    let v1 = ensured(v, target);
    let v2 = delivered_on(
        v1,
        target,
        RegionInput::Event(RegionEvent::Forward(d.arrival)),
        arrival_on_fail(d, now),
    );
    let c = d.client->0;
    let v3 = ManagerView {
        homes: v2.homes.insert(c, target),
        outbox: v2.outbox.push(Action::SendPlayerRegion { to: c, home: Some(d.target) }),
        ..v2
    };
    let v4 = refreshed(v3, from, now);
    let w = refreshed(v4, target, now);
    assert(w == departed(v, from, d, now));
    lemma_refreshed_tracks(v3, from, now);
    lemma_refreshed_tracks(v4, target, now);
    lemma_is_home_same(v4, w, from);
    lemma_is_home_same(v3, w, from);
    if from != target && v.regions.contains_key(from) {
        assert(v3.regions[from] == v.regions[from]);
        assert(w.regions[from] == v4.regions[from]);
    }
}

/// The last departure of a batch that carries a player leaves the region
/// it left with a grace timer running exactly when that region has no
/// keep-alive reason.
pub proof fn lemma_departures_reevaluate_old_region<K, P, S>(
    v: ManagerView<K, P, S>,
    from: (i32, i32),
    ds: Seq<Departure<K>>,
    now: u64,
)
    requires
        ds.len() > 0,
        ds.last().client is Some,
    ensures
        timer_tracks_keepalive(depart_each(v, from, ds, now), from),
        timer_tracks_keepalive(depart_each(v, from, ds, now), ds.last().target.spec_key()),
{
    lemma_departure_reevaluates_both_regions(depart_each(v, from, ds.drop_last(), now), from, ds.last(), now);
}

/// A dead region comes back with exactly the subscribers it had, not
/// stopping and with no pending resubscribes; every other region is
/// unchanged. Re-evaluating it afterwards keeps those subscribers and sets
/// its grace timer by its keep-alive reason.
pub proof fn lemma_respawn_keeps_subscribers<K, P, S>(
    v: ManagerView<K, P, S>,
    rc: (i32, i32),
    now: u64,
)
    requires
        v.regions.contains_key(rc),
    ensures
        respawned(v, rc).regions.contains_key(rc),
        respawned(v, rc).regions[rc].subscribers == v.regions[rc].subscribers,
        !respawned(v, rc).regions[rc].stopping,
        respawned(v, rc).regions[rc].pending.len() == 0,
        respawned(v, rc).regions.dom() == v.regions.dom(),
        forall|r: (i32, i32)|
            r != rc && v.regions.contains_key(r) ==> #[trigger] respawned(v, rc).regions[r]
                == v.regions[r],
        respawned(v, rc).sessions == v.sessions,
        respawned(v, rc).homes == v.homes,
        refreshed(respawned(v, rc), rc, now).regions[rc].subscribers == v.regions[rc].subscribers,
        timer_tracks_keepalive(refreshed(respawned(v, rc), rc, now), rc),
{
    let w = respawned(v, rc);
    assert(w.regions.dom() =~= v.regions.dom());
    lemma_refreshed_tracks(w, rc, now);
}

pub struct WorldManager<K, P, S> {
    regions: BTreeMap<(i32, i32), RegionLink>,
    parked: BTreeMap<(i32, i32), SerializedRegion>,
    sessions: BTreeMap<ClientId, BTreeSet<(i32, i32)>>,
    homes: BTreeMap<ClientId, (i32, i32)>,
    outbox: Vec<Action<K, P, S>>,
}

impl<K, P, S> View for WorldManager<K, P, S> {
    type V = ManagerView<K, P, S>;

    closed spec fn view(&self) -> ManagerView<K, P, S> {
        ManagerView {
            regions: self.regions@.map_values(|l: RegionLink| l@),
            parked: self.parked@,
            sessions: self.sessions@.map_values(|s: BTreeSet<(i32, i32)>| s@),
            homes: self.homes@,
            outbox: self.outbox@,
        }
    }
}

impl<K, P, S> WorldManager<K, P, S> {
    /// A manager with no regions, sessions, homes or parked state.
    pub fn new() -> (r: WorldManager<K, P, S>)
        ensures
            r@.regions == Map::<(i32, i32), LinkView>::empty(),
            r@.parked == Map::<(i32, i32), SerializedRegion>::empty(),
            r@.sessions == Map::<ClientId, Set<(i32, i32)>>::empty(),
            r@.homes == Map::<ClientId, (i32, i32)>::empty(),
            r@.outbox == Seq::<Action<K, P, S>>::empty(),
            subscriptions_consistent(r@),
    {
        let r = WorldManager {
            regions: BTreeMap::new(),
            parked: BTreeMap::new(),
            sessions: BTreeMap::new(),
            homes: BTreeMap::new(),
            outbox: Vec::new(),
        };
        assert(r@.regions =~= Map::<(i32, i32), LinkView>::empty());
        assert(r@.sessions =~= Map::<ClientId, Set<(i32, i32)>>::empty());
        r
    }

    fn ensure_running(&mut self, rc: (i32, i32))
        ensures
            final(self)@ == ensured(old(self)@, rc),
    {
        if self.regions.contains_key(&rc) {
            return;
        }
        let parked = self.parked.remove(&rc);
        let ghost pre = old(self)@;
        self.outbox.push(Action::Spawn { region: RegionCoords::from_key(rc), parked });
        self.regions.insert(rc, RegionLink::fresh());
        proof {
            assert(self@.regions =~= pre.regions.insert(rc, fresh_link()));
            assert(self@.sessions =~= pre.sessions);
        }
    }

    /// Whether some connected client's player lives in `rc`.
    fn is_home_exec(&self, rc: (i32, i32)) -> (r: bool)
        ensures
            r == is_home(self@, rc),
    {
        let clients = client_keys(&self.sessions);
        let mut i: usize = 0;
        while i < clients.len()
            invariant
                i <= clients@.len(),
                clients@.to_set() == self.sessions@.dom(),
                forall|j: int|
                    0 <= j < i ==> !(self.homes@.contains_key(#[trigger] clients@[j])
                        && self.homes@[clients@[j]] == rc),
            decreases clients@.len() - i,
        {
            let c = clients[i];
            match self.homes.get(&c) {
                Some(h) => {
                    if h.0 == rc.0 && h.1 == rc.1 {
                        proof {
                            assert(clients@.to_set().contains(c));
                            assert(self@.sessions.contains_key(c));
                            assert(self@.homes.contains_key(c) && self@.homes[c] == rc);
                        }
                        return true;
                    }
                },
                None => {},
            }
            i = i + 1;
        }
        proof {
            assert forall|c: ClientId|
                self@.sessions.contains_key(c) && #[trigger] self@.homes.contains_key(c) implies self@.homes[c]
                != rc by {
                assert(clients@.to_set().contains(c));
                let j = choose|j: int| 0 <= j < clients@.len() && clients@[j] == c;
            }
        }
        false
    }

    fn refresh_keepalive(&mut self, rc: (i32, i32), now: u64)
        ensures
            final(self)@ == refreshed(old(self)@, rc, now),
    {
        let home = self.is_home_exec(rc);
        match self.regions.remove(&rc) {
            None => {
                proof {
                    assert(self.regions@ =~= old(self).regions@);
                    assert(self@.regions =~= old(self)@.regions);
                    assert(self@.sessions =~= old(self)@.sessions);
                }
            },
            Some(mut link) => {
                link.refresh(home, now);
                self.regions.insert(rc, link);
                proof {
                    assert(self@.regions =~= old(self)@.regions.insert(
                        rc,
                        link_refreshed(old(self)@.regions[rc], home, now),
                    ));
                    assert(self@.sessions =~= old(self)@.sessions);
                }
            },
        }
    }

    fn send_to_region(&mut self, rc: (i32, i32), input: RegionInput<K>)
        ensures
            final(self)@ == delivered(old(self)@, rc, input),
    {
        self.send_to_region_on(rc, input, OnFail::Respawn);
    }

    fn send_to_region_on(&mut self, rc: (i32, i32), input: RegionInput<K>, on_fail: OnFail)
        ensures
            final(self)@ == delivered_on(old(self)@, rc, input, on_fail),
    {
        if self.regions.contains_key(&rc) {
            self.outbox.push(Action::Deliver { region: RegionCoords::from_key(rc), input, on_fail });
            proof {
                assert(self@.regions =~= old(self)@.regions);
                assert(self@.sessions =~= old(self)@.sessions);
            }
        }
    }

    fn subscribe(&mut self, client: ClientId, rc: (i32, i32))
        ensures
            final(self)@ == subscribed(old(self)@, client, rc),
    {
        match self.sessions.remove(&client) {
            None => {
                proof {
                    assert(self.sessions@ =~= old(self).sessions@);
                    assert(self@.regions =~= old(self)@.regions);
                    assert(self@.sessions =~= old(self)@.sessions);
                }
                return;
            },
            Some(mut session) => {
                session.insert(rc);
                self.sessions.insert(client, session);
            },
        }
        let ghost v1 = self@;
        proof {
            assert(v1.sessions =~= old(self)@.sessions.insert(
                client,
                old(self)@.sessions[client].insert(rc),
            ));
            assert(v1.regions =~= old(self)@.regions);
        }
        self.ensure_running(rc);
        let ghost v2 = self@;
        proof {
            assert(v2.regions.contains_key(rc));
            assert(self.regions@.contains_key(rc));
        }
        let mut link = self.regions.remove(&rc).unwrap();
        proof {
            assert(link@ == v2.regions[rc]);
        }
        if link.stopping {
            link.resubscribe_pending.push(client);
            self.regions.insert(rc, link);
            proof {
                assert(self@.regions =~= v2.regions.insert(
                    rc,
                    LinkView { pending: v2.regions[rc].pending.push(client), ..v2.regions[rc] },
                ));
                assert(self@.sessions =~= v2.sessions);
            }
            return;
        }
        link.subscribers.insert(client);
        link.empty_since_ms = None;
        self.regions.insert(rc, link);
        proof {
            assert(self@.regions =~= v2.regions.insert(
                rc,
                LinkView {
                    subscribers: v2.regions[rc].subscribers.insert(client),
                    empty_since: None,
                    ..v2.regions[rc]
                },
            ));
            assert(self@.sessions =~= v2.sessions);
        }
        self.send_to_region(rc, RegionInput::RequestSnapshot(client));
    }

    fn unsubscribe_link(&mut self, client: ClientId, rc: (i32, i32), now: u64)
        ensures
            final(self)@ == link_left(old(self)@, client, rc, now),
    {
        match self.regions.remove(&rc) {
            None => {
                proof {
                    assert(self.regions@ =~= old(self).regions@);
                    assert(self@.regions =~= old(self)@.regions);
                    assert(self@.sessions =~= old(self)@.sessions);
                }
            },
            Some(mut link) => {
                link.drop_client(client);
                self.regions.insert(rc, link);
                proof {
                    assert(self@.regions =~= old(self)@.regions.insert(
                        rc,
                        link_unsubscribed(old(self)@.regions[rc], client),
                    ));
                    assert(self@.sessions =~= old(self)@.sessions);
                }
                self.refresh_keepalive(rc, now);
            },
        }
    }

    fn unsubscribe(&mut self, client: ClientId, rc: (i32, i32), now: u64)
        ensures
            final(self)@ == unsubscribed(old(self)@, client, rc, now),
    {
        match self.sessions.remove(&client) {
            None => {
                proof {
                    assert(self.sessions@ =~= old(self).sessions@);
                    assert(self@.regions =~= old(self)@.regions);
                    assert(self@.sessions =~= old(self)@.sessions);
                }
            },
            Some(mut session) => {
                session.remove(&rc);
                self.sessions.insert(client, session);
                proof {
                    assert(self@.sessions =~= old(self)@.sessions.insert(
                        client,
                        old(self)@.sessions[client].remove(rc),
                    ));
                    assert(self@.regions =~= old(self)@.regions);
                }
            },
        }
        self.unsubscribe_link(client, rc, now);
    }

    /// Handles one server event. Returns false when the server should quit
    /// (a Quit game event).
    pub fn handle_server_event(&mut self, ev: ServerEvent<K>, now_ms: u64) -> (r: bool)
        ensures
            r == !is_quit(ev),
            final(self)@ == after_server_event(old(self)@, ev, now_ms),
            match ev {
                ServerEvent::ClientDisconnected(id) => old(self)@.sessions.contains_key(id)
                    ==> forall|rc: (i32, i32)|
                    old(self)@.sessions[id].contains(rc) ==> #[trigger] timer_tracks_keepalive(
                        final(self)@,
                        rc,
                    ),
                _ => true,
            },
            subscriptions_consistent(old(self)@) && !reconnects_connected(old(self)@, ev)
                ==> subscriptions_consistent(final(self)@),
    {
        let ghost ev0 = ev;
        match ev {
            ServerEvent::ClientConnected(id) => {
                let fresh: BTreeSet<(i32, i32)> = BTreeSet::new();
                self.sessions.insert(id, fresh);
                proof {
                    assert(self@.sessions =~= old(self)@.sessions.insert(id, Set::empty()));
                    assert(self@.regions =~= old(self)@.regions);
                }
                if !self.homes.contains_key(&id) {
                    let spawn = spawn_region().key();
                    self.ensure_running(spawn);
                    self.homes.insert(id, spawn);
                    self.send_to_region(spawn, RegionInput::Event(RegionEvent::CreateClient(id)));
                }
            },
            ServerEvent::ClientDisconnected(id) => {
                self.disconnect(id, now_ms);
                proof {
                    let v = old(self)@;
                    if v.sessions.contains_key(id) {
                        assert forall|rc: (i32, i32)|
                            v.sessions[id].contains(rc) implies #[trigger] timer_tracks_keepalive(
                            self@,
                            rc,
                        ) by {
                            lemma_disconnect_restarts_grace_timers(v, id, now_ms, rc);
                        }
                    }
                }
            },
            ServerEvent::ClientPacket(packet, id) => {
                match packet {
                    ClientPacket::RequestPlayerRegion => {
                        let home = match self.homes.get(&id) {
                            Some(h) => Some(RegionCoords::from_key(*h)),
                            None => None,
                        };
                        self.outbox.push(Action::SendPlayerRegion { to: id, home });
                        proof {
                            assert(self@.regions =~= old(self)@.regions);
                            assert(self@.sessions =~= old(self)@.sessions);
                        }
                    },
                    ClientPacket::RequestRegionConnection(rc) => {
                        self.subscribe(id, rc.key());
                    },
                    ClientPacket::ReleaseRegionConnection(rc) => {
                        self.unsubscribe(id, rc.key(), now_ms);
                    },
                    ClientPacket::GameEvent { class, kind, region } => {
                        match class {
                            EventClass::Tick => {},
                            EventClass::Quit => {
                                return false;
                            },
                            EventClass::PlayerInput(cid) => {
                                match self.homes.get(&cid) {
                                    Some(h) => {
                                        let home = *h;
                                        if self.regions.contains_key(&home) {
                                            self.send_to_region(
                                                home,
                                                RegionInput::Event(RegionEvent::Forward(kind)),
                                            );
                                        }
                                    },
                                    None => {},
                                }
                            },
                            EventClass::EntityArrived | EventClass::GhostUpdate => {},
                            EventClass::CreateClient => {
                                let key = region.key();
                                let listed = match self.sessions.get(&id) {
                                    Some(session) => session.contains(&key),
                                    None => false,
                                };
                                if listed && self.regions.contains_key(&key) {
                                    self.send_to_region(
                                        key,
                                        RegionInput::Event(RegionEvent::Forward(kind)),
                                    );
                                }
                            },
                        }
                    },
                }
            },
        }
        proof {
            if subscriptions_consistent(old(self)@) && !reconnects_connected(old(self)@, ev0) {
                lemma_server_event_consistent(old(self)@, ev0, now_ms);
            }
        }
        true
    }

    fn disconnect(&mut self, id: ClientId, now_ms: u64)
        ensures
            final(self)@ == disconnected(old(self)@, id, now_ms),
    {
        match self.sessions.remove(&id) {
            None => {
                proof {
                    assert(self.sessions@ =~= old(self).sessions@);
                    assert(self@.regions =~= old(self)@.regions);
                    assert(self@.sessions =~= old(self)@.sessions);
                }
            },
            Some(session) => {
                let ghost v0 = old(self)@;
                let ghost v1 = self@;
                let ghost subs = v0.sessions[id];
                proof {
                    assert(v1.sessions =~= v0.sessions.remove(id));
                    assert(v1.regions =~= v0.regions);
                    assert(session@ == subs);
                }
                let rcs = region_items(&session);
                let mut i: usize = 0;
                while i < rcs.len()
                    invariant
                        i <= rcs@.len(),
                        rcs@.to_set() == subs,
                        rcs@.no_duplicates(),
                        self@.sessions == v1.sessions,
                        self@.homes == v1.homes,
                        self@.parked == v1.parked,
                        self@.outbox == v1.outbox,
                        self@.regions == Map::new(
                            |rc: (i32, i32)| v1.regions.contains_key(rc),
                            |rc: (i32, i32)|
                                if rcs@.take(i as int).contains(rc) {
                                    link_refreshed(
                                        link_unsubscribed(v1.regions[rc], id),
                                        is_home(v1, rc),
                                        now_ms,
                                    )
                                } else {
                                    v1.regions[rc]
                                },
                        ),
                    decreases rcs@.len() - i,
                {
                    let rc = rcs[i];
                    let ghost pre = self@;
                    proof {
                        lemma_is_home_same(pre, v1, rc);
                        assert(!rcs@.take(i as int).contains(rc)) by {
                            if rcs@.take(i as int).contains(rc) {
                                let j = choose|j: int|
                                    0 <= j < i && #[trigger] rcs@.take(i as int)[j] == rc;
                                assert(rcs@[j] == rcs@[i as int]);
                            }
                        }
                    }
                    self.unsubscribe_link(id, rc, now_ms);
                    proof {
                        let mid = ManagerView {
                            regions: pre.regions.insert(rc, link_unsubscribed(pre.regions[rc], id)),
                            ..pre
                        };
                        lemma_is_home_same(mid, v1, rc);
                        assert(rcs@.take(i + 1) == rcs@.take(i as int).push(rc));
                        assert forall|r: (i32, i32)|
                            #![trigger rcs@.take(i + 1).contains(r)]
                            rcs@.take(i + 1).contains(r) == (rcs@.take(i as int).contains(r)
                                || r == rc) by {
                            if rcs@.take(i + 1).contains(r) && r != rc {
                                let j = choose|j: int|
                                    0 <= j < i + 1 && #[trigger] rcs@.take(i + 1)[j] == r;
                                assert(rcs@.take(i as int)[j] == r);
                            }
                            if r == rc {
                                assert(rcs@.take(i + 1)[i as int] == rc);
                            }
                        }
                        assert(self@.regions =~= Map::new(
                            |rc: (i32, i32)| v1.regions.contains_key(rc),
                            |r: (i32, i32)|
                                if rcs@.take(i + 1).contains(r) {
                                    link_refreshed(
                                        link_unsubscribed(v1.regions[r], id),
                                        is_home(v1, r),
                                        now_ms,
                                    )
                                } else {
                                    v1.regions[r]
                                },
                        ));
                    }
                    i = i + 1;
                }
                proof {
                    assert(rcs@.take(i as int) == rcs@);
                    assert forall|rc: (i32, i32)| rcs@.contains(rc) == subs.contains(rc) by {
                        if rcs@.contains(rc) {
                            assert(rcs@.to_set().contains(rc));
                        }
                    }
                    assert(self@.regions =~= Map::new(
                        |rc: (i32, i32)| v1.regions.contains_key(rc),
                        |rc: (i32, i32)|
                            if subs.contains(rc) {
                                link_refreshed(
                                    link_unsubscribed(v1.regions[rc], id),
                                    is_home(v1, rc),
                                    now_ms,
                                )
                            } else {
                                v1.regions[rc]
                            },
                    ));
                }
            },
        }
        match self.homes.get(&id) {
            Some(h) => {
                let home = *h;
                self.refresh_keepalive(home, now_ms);
            },
            None => {},
        }
    }

    fn subscribers_of(&self, rc: (i32, i32)) -> (r: Vec<ClientId>)
        requires
            self@.regions.contains_key(rc),
        ensures
            r@.to_set() == self@.regions[rc].subscribers,
            r@.no_duplicates(),
            forall|a: int, b: int| 0 <= a < b < r@.len() ==> r@[a] < r@[b],
    {
        let link = self.regions.get(&rc).unwrap();
        client_items(&link.subscribers)
    }

    fn depart(&mut self, from: (i32, i32), d: Departure<K>, now_ms: u64)
        ensures
            final(self)@ == departed(old(self)@, from, d, now_ms),
    {
        let ghost d0 = d;
        let Departure { arrival, target, client } = d;
        let t = target.key();
        self.ensure_running(t);
        let on_fail = match client {
            Some(_) => OnFail::RespawnThenRefresh { now_ms },
            None => OnFail::Respawn,
        };
        self.send_to_region_on(t, RegionInput::Event(RegionEvent::Forward(arrival)), on_fail);
        match client {
            Some(c) => {
                let ghost v2 = self@;
                self.homes.insert(c, t);
                self.outbox.push(Action::SendPlayerRegion { to: c, home: Some(target) });
                proof {
                    assert(self@.regions =~= v2.regions);
                    assert(self@.sessions =~= v2.sessions);
                }
                self.refresh_keepalive(from, now_ms);
                self.refresh_keepalive(t, now_ms);
            },
            None => {},
        }
    }

    fn ghost_update(&mut self, g: (K, RegionCoords))
        ensures
            final(self)@ == ghosted(old(self)@, g),
    {
        let (kind, target) = g;
        let t = target.key();
        let running = match self.regions.get(&t) {
            Some(link) => !link.stopping,
            None => false,
        };
        if running {
            self.send_to_region(t, RegionInput::Event(RegionEvent::Forward(kind)));
        }
    }

    /// Handles one output of the running region `rc`: forwards processed
    /// events, snapshots and clock syncs to subscribers, parks a stopped
    /// region, and relays departures and ghost refreshes to neighbours.
    pub fn handle_region_output(&mut self, rc: RegionCoords, output: RegionOutput<K, P, S>, now_ms: u64)
        ensures
            match output {
                RegionOutput::EventProcessed(p) => if old(self)@.regions.contains_key(rc.spec_key()) {
                    exists|to: Vec<ClientId>|
                        sends_to_subscribers(old(self)@, rc.spec_key(), to) && final(self)@
                            == with_action(old(self)@, Action::SendEvent { to, event: p })
                } else {
                    final(self)@ == old(self)@
                },
                RegionOutput::SyncClock { tick_rate, tick } => if old(self)@.regions.contains_key(
                    rc.spec_key(),
                ) {
                    exists|to: Vec<ClientId>|
                        sends_to_subscribers(old(self)@, rc.spec_key(), to) && final(self)@
                            == with_action(
                            old(self)@,
                            Action::SendSyncClock { to, region: rc, tick_rate, tick },
                        )
                } else {
                    final(self)@ == old(self)@
                },
                RegionOutput::Snapshot(client, snapshot) => final(self)@ == with_action(
                    old(self)@,
                    Action::SendSnapshot { to: client, region: rc, snapshot },
                ),
                RegionOutput::Stopped(state) => final(self)@ == stopped(
                    old(self)@,
                    rc.spec_key(),
                    state,
                ),
                RegionOutput::Departures(list) => final(self)@ == depart_each(
                    old(self)@,
                    rc.spec_key(),
                    list@,
                    now_ms,
                ) && (list@.len() > 0 && list@.last().client is Some ==> timer_tracks_keepalive(
                    final(self)@,
                    rc.spec_key(),
                )),
                RegionOutput::GhostUpdates(list) => final(self)@ == ghost_each(old(self)@, list@),
            },
            subscriptions_consistent(old(self)@) ==> subscriptions_consistent(final(self)@),
    {
        let k = rc.key();
        let ghost v0 = self@;
        match output {
            RegionOutput::EventProcessed(event) => {
                if self.regions.contains_key(&k) {
                    let to = self.subscribers_of(k);
                    let ghost to0 = to;
                    self.outbox.push(Action::SendEvent { to, event });
                    proof {
                        assert(self@.regions =~= v0.regions);
                        assert(self@.sessions =~= v0.sessions);
                        assert(sends_to_subscribers(v0, k, to0));
                        assert(self@ == with_action(v0, Action::SendEvent { to: to0, event }));
                    }
                }
            },
            RegionOutput::SyncClock { tick_rate, tick } => {
                if self.regions.contains_key(&k) {
                    let to = self.subscribers_of(k);
                    let ghost to0 = to;
                    self.outbox.push(Action::SendSyncClock { to, region: rc, tick_rate, tick });
                    proof {
                        assert(self@.regions =~= v0.regions);
                        assert(self@.sessions =~= v0.sessions);
                        assert(sends_to_subscribers(v0, k, to0));
                        assert(self@ == with_action(
                            v0,
                            Action::SendSyncClock { to: to0, region: rc, tick_rate, tick },
                        ));
                    }
                }
            },
            RegionOutput::Snapshot(client, snapshot) => {
                self.outbox.push(Action::SendSnapshot { to: client, region: rc, snapshot });
                proof {
                    assert(self@.regions =~= v0.regions);
                    assert(self@.sessions =~= v0.sessions);
                }
            },
            RegionOutput::Stopped(state) => {
                self.parked.insert(k, state);
                let pending = match self.regions.remove(&k) {
                    Some(link) => link.resubscribe_pending,
                    None => Vec::new(),
                };
                self.outbox.push(Action::Reap(rc));
                let ghost v1 = self@;
                proof {
                    assert(v1.regions =~= v0.regions.remove(k));
                    assert(v1.sessions =~= v0.sessions);
                    assert(v1.parked =~= v0.parked.insert(k, state));
                    if v0.regions.contains_key(k) {
                        assert(pending@ == v0.regions[k].pending);
                    } else {
                        assert(pending@ =~= Seq::<ClientId>::empty());
                    }
                    assert(pending@.take(0) =~= Seq::<ClientId>::empty());
                }
                let mut i: usize = 0;
                while i < pending.len()
                    invariant
                        i <= pending@.len(),
                        self@ == subscribe_each(v1, pending@.take(i as int), k),
                    decreases pending@.len() - i,
                {
                    let c = pending[i];
                    proof {
                        assert(pending@.take(i + 1).drop_last() == pending@.take(i as int));
                    }
                    self.subscribe(c, k);
                    i = i + 1;
                }
                proof {
                    assert(pending@.take(i as int) == pending@);
                    if subscriptions_consistent(v0) {
                        lemma_stopped_consistent(v0, k, state);
                    }
                }
            },
            RegionOutput::Departures(list) => {
                let ghost ds = list@;
                let mut list = list;
                let n = list.len();
                let mut i: usize = 0;
                proof {
                    assert(ds.take(0) =~= Seq::<Departure<K>>::empty());
                    assert(ds.skip(0) =~= ds);
                }
                while i < n
                    invariant
                        n == ds.len(),
                        i <= n,
                        list@ == ds.skip(i as int),
                        self@ == depart_each(v0, k, ds.take(i as int), now_ms),
                    decreases n - i,
                {
                    let d = list.remove(0);
                    proof {
                        assert(d == ds[i as int]);
                        assert(ds.take(i + 1).drop_last() == ds.take(i as int));
                        assert(list@ =~= ds.skip(i + 1));
                    }
                    self.depart(k, d, now_ms);
                    i = i + 1;
                }
                proof {
                    assert(ds.take(n as int) == ds);
                    if subscriptions_consistent(v0) {
                        lemma_depart_each_consistent(v0, k, ds, now_ms);
                    }
                    if ds.len() > 0 && ds.last().client is Some {
                        lemma_departures_reevaluate_old_region(v0, k, ds, now_ms);
                    }
                }
            },
            RegionOutput::GhostUpdates(list) => {
                let ghost gs = list@;
                let mut list = list;
                let n = list.len();
                let mut i: usize = 0;
                proof {
                    assert(gs.take(0) =~= Seq::<(K, RegionCoords)>::empty());
                    assert(gs.skip(0) =~= gs);
                }
                while i < n
                    invariant
                        n == gs.len(),
                        i <= n,
                        list@ == gs.skip(i as int),
                        self@ == ghost_each(v0, gs.take(i as int)),
                    decreases n - i,
                {
                    let g = list.remove(0);
                    proof {
                        assert(g == gs[i as int]);
                        assert(gs.take(i + 1).drop_last() == gs.take(i as int));
                        assert(list@ =~= gs.skip(i + 1));
                    }
                    self.ghost_update(g);
                    i = i + 1;
                }
                proof {
                    assert(gs.take(n as int) == gs);
                    lemma_ghost_updates_never_wake(v0, gs);
                }
            },
        }
    }

    proof fn lemma_regions_view(&self)
        ensures
            self@.regions.dom() == self.regions@.dom(),
            forall|k: (i32, i32)|
                #[trigger] self.regions@.contains_key(k) ==> self@.regions[k] == self.regions@[k]@,
    {
        assert(self@.regions.dom() =~= self.regions@.dom());
    }

    fn stop_where(&mut self, expire_only: bool, now_ms: u64, on_fail: OnFail)
        ensures
            final(self)@.sessions == old(self)@.sessions,
            final(self)@.homes == old(self)@.homes,
            final(self)@.parked == old(self)@.parked,
            final(self)@.regions == marked_stopping(old(self)@, expire_only, now_ms),
            exists|ks: Seq<(i32, i32)>|
                {
                    &&& ks.no_duplicates()
                    &&& forall|a: int, b: int| 0 <= a < b < ks.len() ==> key_before(ks[a], ks[b])
                    &&& forall|rc: (i32, i32)|
                        ks.contains(rc) <==> stop_due(old(self)@, rc, expire_only, now_ms)
                    &&& final(self)@.outbox == old(self)@.outbox + ks.map_values(
                        |rc: (i32, i32)| shutdown_action::<K, P, S>(rc, on_fail),
                    )
                },
    {
        let ghost v0 = self@;
        let keys = region_keys(&self.regions);
        let ghost mut ks: Seq<(i32, i32)> = Seq::empty();
        let mut i: usize = 0;
        proof {
            assert(self@.regions =~= Map::new(
                |rc: (i32, i32)| v0.regions.contains_key(rc),
                |rc: (i32, i32)|
                    if ks.contains(rc) {
                        LinkView { stopping: true, ..v0.regions[rc] }
                    } else {
                        v0.regions[rc]
                    },
            ));
            assert(self@.outbox =~= v0.outbox + ks.map_values(
                |rc: (i32, i32)| shutdown_action::<K, P, S>(rc, on_fail),
            ));
        }
        while i < keys.len()
            invariant
                i <= keys@.len(),
                keys@.to_set() == v0.regions.dom(),
                keys@.no_duplicates(),
                forall|a: int, b: int| 0 <= a < b < keys@.len() ==> key_before(keys@[a], keys@[b]),
                self@.sessions == v0.sessions,
                self@.homes == v0.homes,
                self@.parked == v0.parked,
                ks.no_duplicates(),
                forall|a: int, b: int| 0 <= a < b < ks.len() ==> key_before(ks[a], ks[b]),
                forall|rc: (i32, i32)|
                    ks.contains(rc) <==> (keys@.take(i as int).contains(rc) && stop_due(
                        v0,
                        rc,
                        expire_only,
                        now_ms,
                    )),
                self@.regions == Map::new(
                    |rc: (i32, i32)| v0.regions.contains_key(rc),
                    |rc: (i32, i32)|
                        if ks.contains(rc) {
                            LinkView { stopping: true, ..v0.regions[rc] }
                        } else {
                            v0.regions[rc]
                        },
                ),
                self@.outbox == v0.outbox + ks.map_values(
                    |rc: (i32, i32)| shutdown_action::<K, P, S>(rc, on_fail),
                ),
            decreases keys@.len() - i,
        {
            let k = keys[i];
            let ghost pre = self@;
            proof {
                assert(keys@.to_set().contains(k));
                assert(!keys@.take(i as int).contains(k)) by {
                    if keys@.take(i as int).contains(k) {
                        let j = choose|j: int| 0 <= j < i && #[trigger] keys@.take(i as int)[j] == k;
                        assert(keys@[j] == keys@[i as int]);
                    }
                }
                assert(!ks.contains(k));
                assert(pre.regions[k] == v0.regions[k]);
                lemma_is_home_same(pre, v0, k);
                assert forall|r: (i32, i32)|
                    #![trigger keys@.take(i + 1).contains(r)]
                    keys@.take(i + 1).contains(r) == (keys@.take(i as int).contains(r) || r == k) by {
                    assert(keys@.take(i + 1) == keys@.take(i as int).push(k));
                    if keys@.take(i + 1).contains(r) && r != k {
                        let j = choose|j: int| 0 <= j < i + 1 && #[trigger] keys@.take(i + 1)[j] == r;
                        assert(keys@.take(i as int)[j] == r);
                    }
                    if r == k {
                        assert(keys@.take(i + 1)[i as int] == k);
                    }
                }
            }
            let home = self.is_home_exec(k);
            proof {
                self.lemma_regions_view();
                assert(self.regions@.contains_key(k));
            }
            let link = self.regions.remove(&k).unwrap();
            proof {
                assert(link@ == v0.regions[k]);
            }
            let due = if expire_only {
                let timed_out = match link.empty_since_ms {
                    Some(t) => {
                        let waited = if now_ms >= t {
                            now_ms - t
                        } else {
                            0
                        };
                        waited >= UNLOAD_GRACE_MS
                    },
                    None => false,
                };
                !link.stopping && link.subscribers.is_empty() && !home && timed_out
            } else {
                !link.stopping
            };
            let mut link = link;
            if due {
                link.stopping = true;
            }
            self.regions.insert(k, link);
            if due {
                self.outbox.push(
                    Action::Deliver {
                        region: RegionCoords::from_key(k),
                        input: RegionInput::Shutdown,
                        on_fail,
                    },
                );
            }
            proof {
                assert(due == stop_due(v0, k, expire_only, now_ms));
                let ks0 = ks;
                if due {
                    ks = ks.push(k);
                    assert(ks.map_values(|rc: (i32, i32)| shutdown_action::<K, P, S>(rc, on_fail))
                        =~= ks0.map_values(
                        |rc: (i32, i32)| shutdown_action::<K, P, S>(rc, on_fail),
                    ).push(shutdown_action::<K, P, S>(k, on_fail)));
                    assert forall|a: int, b: int| 0 <= a < b < ks.len() implies ks[a] != ks[b] by {
                        if b == ks.len() - 1 {
                            assert(ks0.contains(ks[a]));
                        }
                    }
                    assert forall|a: int, b: int| 0 <= a < b < ks.len() implies key_before(
                        ks[a],
                        ks[b],
                    ) by {
                        if b == ks.len() - 1 {
                            assert(ks0[a] == ks[a]);
                            assert(ks0.contains(ks0[a]));
                            assert(keys@.take(i as int).contains(ks[a]));
                            let j = choose|j: int|
                                0 <= j < i && #[trigger] keys@.take(i as int)[j] == ks[a];
                            assert(keys@[j] == ks[a]);
                        } else {
                            assert(ks0[a] == ks[a] && ks0[b] == ks[b]);
                        }
                    }
                }
                assert forall|rc: (i32, i32)|
                    ks.contains(rc) <==> (keys@.take(i + 1).contains(rc) && stop_due(
                        v0,
                        rc,
                        expire_only,
                        now_ms,
                    )) by {
                    if ks.contains(rc) && rc != k {
                        if due {
                            let j = choose|j: int| 0 <= j < ks.len() && ks[j] == rc;
                            assert(ks0[j] == rc);
                        }
                    }
                    if rc != k && ks0.contains(rc) {
                        let j = choose|j: int| 0 <= j < ks0.len() && ks0[j] == rc;
                        assert(ks[j] == rc);
                    }
                    if rc == k && due {
                        assert(ks[ks.len() - 1] == k);
                    }
                }
                assert(self@.regions =~= Map::new(
                    |rc: (i32, i32)| v0.regions.contains_key(rc),
                    |rc: (i32, i32)|
                        if ks.contains(rc) {
                            LinkView { stopping: true, ..v0.regions[rc] }
                        } else {
                            v0.regions[rc]
                        },
                ));
                assert(self@.sessions =~= pre.sessions);
            }
            i = i + 1;
        }
        proof {
            assert(keys@.take(i as int) == keys@);
            assert forall|rc: (i32, i32)| stop_due(v0, rc, expire_only, now_ms) implies keys@.contains(
                rc,
            ) by {
                assert(keys@.to_set().contains(rc));
            }
            assert(self@.regions =~= marked_stopping(v0, expire_only, now_ms));
        }
    }

    /// Grace-period unloads: every region that has had no subscriber and
    /// no connected client's player for `UNLOAD_GRACE_MS` is asked to
    /// stop (and parks when it answers `Stopped`).
    pub fn maintain(&mut self, now_ms: u64)
        ensures
            final(self)@.sessions == old(self)@.sessions,
            final(self)@.homes == old(self)@.homes,
            final(self)@.parked == old(self)@.parked,
            final(self)@.regions == marked_stopping(old(self)@, true, now_ms),
            exists|ks: Seq<(i32, i32)>|
                {
                    &&& ks.no_duplicates()
                    &&& forall|a: int, b: int| 0 <= a < b < ks.len() ==> key_before(ks[a], ks[b])
                    &&& forall|rc: (i32, i32)| ks.contains(rc) <==> expired(old(self)@, rc, now_ms)
                    &&& final(self)@.outbox == old(self)@.outbox + ks.map_values(
                        |rc: (i32, i32)| shutdown_action::<K, P, S>(rc, OnFail::Remove),
                    )
                },
            forall|i: int|
                old(self)@.outbox.len() <= i < final(self)@.outbox.len() ==> stops_idle_region(
                    old(self)@,
                    #[trigger] final(self)@.outbox[i],
                ),
            subscriptions_consistent(old(self)@) ==> subscriptions_consistent(final(self)@),
    {
        self.stop_where(true, now_ms, OnFail::Remove);
        proof {
            if subscriptions_consistent(old(self)@) {
                lemma_marked_stopping_consistent(old(self)@, self@, true, now_ms);
            }
            let v = old(self)@;
            let ks = choose|ks: Seq<(i32, i32)>|
                {
                    &&& ks.no_duplicates()
                    &&& forall|a: int, b: int| 0 <= a < b < ks.len() ==> key_before(ks[a], ks[b])
                    &&& forall|rc: (i32, i32)| ks.contains(rc) <==> stop_due(v, rc, true, now_ms)
                    &&& self@.outbox == v.outbox + ks.map_values(
                        |rc: (i32, i32)| shutdown_action::<K, P, S>(rc, OnFail::Remove),
                    )
                };
            assert forall|i: int| v.outbox.len() <= i < self@.outbox.len() implies stops_idle_region(
                v,
                #[trigger] self@.outbox[i],
            ) by {
                let j = i - v.outbox.len();
                let rc = ks[j];
                assert(ks.contains(rc));
                assert(self@.outbox[i] == shutdown_action::<K, P, S>(rc, OnFail::Remove));
                assert(coords(rc).spec_key() == rc);
            }
        }
    }

    /// Asks every running region that is not already stopping to stop.
    pub fn shutdown_all(&mut self)
        ensures
            final(self)@.sessions == old(self)@.sessions,
            final(self)@.homes == old(self)@.homes,
            final(self)@.parked == old(self)@.parked,
            final(self)@.regions == marked_stopping(old(self)@, false, 0),
            exists|ks: Seq<(i32, i32)>|
                {
                    &&& ks.no_duplicates()
                    &&& forall|a: int, b: int| 0 <= a < b < ks.len() ==> key_before(ks[a], ks[b])
                    &&& forall|rc: (i32, i32)|
                        ks.contains(rc) <==> (old(self)@.regions.contains_key(rc)
                            && !old(self)@.regions[rc].stopping)
                    &&& final(self)@.outbox == old(self)@.outbox + ks.map_values(
                        |rc: (i32, i32)| shutdown_action::<K, P, S>(rc, OnFail::Ignore),
                    )
                },
            subscriptions_consistent(old(self)@) ==> subscriptions_consistent(final(self)@),
    {
        self.stop_where(false, 0, OnFail::Ignore);
        proof {
            if subscriptions_consistent(old(self)@) {
                lemma_marked_stopping_consistent(old(self)@, self@, false, 0);
            }
        }
    }

    /// A delivery with `OnFail::Respawn` (`refresh_at` is `None`) or
    /// `OnFail::RespawnThenRefresh { now_ms }` (`refresh_at` is
    /// `Some(now_ms)`) to region `rc` failed: the region died. It is reaped
    /// and respawned (from parked state if any, else regenerated), keeps its
    /// subscribers, and each subscriber is sent a fresh snapshot; the failed
    /// input itself is dropped. With `refresh_at`, the respawned region's
    /// keep-alive reason is then re-evaluated at that time.
    pub fn region_died(&mut self, rc: RegionCoords, refresh_at: Option<u64>)
        ensures
            old(self)@.regions.contains_key(rc.spec_key()) ==> exists|cs: Seq<ClientId>|
                {
                    let base = respawned(old(self)@, rc.spec_key());
                    let mid = ManagerView {
                        outbox: base.outbox + cs.map_values(
                            |c: ClientId| resnapshot_action::<K, P, S>(rc.spec_key(), c),
                        ),
                        ..base
                    };
                    &&& #[trigger] cs.to_set() == old(self)@.regions[rc.spec_key()].subscribers
                    &&& cs.no_duplicates()
                    &&& forall|a: int, b: int| 0 <= a < b < cs.len() ==> cs[a] < cs[b]
                    &&& final(self)@ == match refresh_at {
                        Some(now) => refreshed(mid, rc.spec_key(), now),
                        None => mid,
                    }
                },
            !old(self)@.regions.contains_key(rc.spec_key()) ==> final(self)@ == old(self)@,
            old(self)@.regions.contains_key(rc.spec_key()) ==> final(self)@.regions.contains_key(
                rc.spec_key(),
            ) && final(self)@.regions[rc.spec_key()].subscribers == old(
                self,
            )@.regions[rc.spec_key()].subscribers && !final(self)@.regions[rc.spec_key()].stopping,
            subscriptions_consistent(old(self)@) ==> subscriptions_consistent(final(self)@),
    {
        let k = rc.key();
        let ghost v0 = self@;
        match self.regions.remove(&k) {
            None => {
                proof {
                    assert(self.regions@ =~= old(self).regions@);
                    assert(self@.regions =~= old(self)@.regions);
                    assert(self@.sessions =~= old(self)@.sessions);
                }
            },
            Some(link) => {
                let subs = link.subscribers;
                self.outbox.push(Action::Reap(rc));
                proof {
                    assert(self@.regions =~= v0.regions.remove(k));
                    assert(self@.sessions =~= v0.sessions);
                }
                self.ensure_running(k);
                let ghost v2 = self@;
                proof {
                    self.lemma_regions_view();
                    assert(self.regions@.contains_key(k));
                }
                let mut fresh = self.regions.remove(&k).unwrap();
                proof {
                    assert(fresh@ == v2.regions[k]);
                    assert(v2.regions[k] == fresh_link());
                }
                let clients = client_items(&subs);
                fresh.subscribers = subs;
                self.regions.insert(k, fresh);
                let ghost v3 = self@;
                proof {
                    assert(v3.regions =~= v2.regions.insert(
                        k,
                        LinkView { subscribers: v0.regions[k].subscribers, ..fresh_link() },
                    ));
                    assert(v3.sessions =~= v2.sessions);
                    assert(v3 == respawned(v0, k));
                }
                let mut i: usize = 0;
                while i < clients.len()
                    invariant
                        i <= clients@.len(),
                        k == rc.spec_key(),
                        self@ == (ManagerView {
                            outbox: v3.outbox + clients@.take(i as int).map_values(
                                |c: ClientId| resnapshot_action::<K, P, S>(k, c),
                            ),
                            ..v3
                        }),
                    decreases clients@.len() - i,
                {
                    let c = clients[i];
                    let ghost pre = self@;
                    self.outbox.push(
                        Action::Deliver {
                            region: rc,
                            input: RegionInput::RequestSnapshot(c),
                            on_fail: OnFail::Ignore,
                        },
                    );
                    proof {
                        assert(clients@.take(i + 1) == clients@.take(i as int).push(c));
                        assert(coords(k) == rc);
                        assert(self@.outbox =~= pre.outbox.push(resnapshot_action::<K, P, S>(k, c)));
                        assert(clients@.take(i + 1).map_values(
                            |c: ClientId| resnapshot_action::<K, P, S>(k, c),
                        ) =~= clients@.take(i as int).map_values(
                            |c: ClientId| resnapshot_action::<K, P, S>(k, c),
                        ).push(resnapshot_action::<K, P, S>(k, c)));
                        assert(self@.regions =~= pre.regions);
                        assert(self@.sessions =~= pre.sessions);
                    }
                    i = i + 1;
                }
                let ghost v4 = self@;
                proof {
                    assert(clients@.take(i as int) == clients@);
                    if subscriptions_consistent(v0) {
                        lemma_respawned_consistent(v0, k);
                    }
                }
                match refresh_at {
                    Some(now) => {
                        self.refresh_keepalive(k, now);
                        proof {
                            lemma_respawn_keeps_subscribers(v0, k, now);
                            if subscriptions_consistent(v0) {
                                lemma_refreshed_consistent(v4, k, now);
                            }
                        }
                    },
                    None => {
                        proof {
                            lemma_respawn_keeps_subscribers(v0, k, 0);
                        }
                    },
                }
            },
        }
    }

    /// A shutdown requested with `OnFail::Remove` could not be delivered:
    /// the region died first. Its link is dropped (its state is lost) and
    /// its resources are reaped.
    pub fn shutdown_failed(&mut self, rc: RegionCoords)
        ensures
            old(self)@.regions.contains_key(rc.spec_key()) ==> final(self)@ == (ManagerView {
                regions: old(self)@.regions.remove(rc.spec_key()),
                outbox: old(self)@.outbox.push(Action::Reap(rc)),
                ..old(self)@
            }),
            !old(self)@.regions.contains_key(rc.spec_key()) ==> final(self)@ == old(self)@,
            subscriptions_consistent(old(self)@) ==> subscriptions_consistent(final(self)@),
    {
        let k = rc.key();
        match self.regions.remove(&k) {
            None => {
                proof {
                    assert(self.regions@ =~= old(self).regions@);
                    assert(self@.regions =~= old(self)@.regions);
                    assert(self@.sessions =~= old(self)@.sessions);
                }
            },
            Some(_link) => {
                self.outbox.push(Action::Reap(rc));
                proof {
                    assert(self@.regions =~= old(self)@.regions.remove(k));
                    assert(self@.sessions =~= old(self)@.sessions);
                    let v = old(self)@;
                    let w = self@;
                    if subscriptions_consistent(v) {
                        assert forall|r: (i32, i32), c: ClientId|
                            w.regions.contains_key(r) && (
                            #[trigger] w.regions[r].subscribers.contains(c)
                                || #[trigger] w.regions[r].pending.contains(
                                c,
                            )) implies w.sessions.contains_key(c) && w.sessions[c].contains(r) by {
                            assert(v.regions[r].subscribers.contains(c)
                                || v.regions[r].pending.contains(c));
                        }
                    }
                }
            },
        }
    }

    /// The running regions, each once, ascending by `x` then `z`.
    pub fn running_regions(&self) -> (r: Vec<RegionCoords>)
        ensures
            r@.map_values(|c: RegionCoords| c.spec_key()).to_set() == self@.regions.dom(),
            r@.len() == self@.regions.dom().len(),
            forall|a: int, b: int|
                0 <= a < b < r@.len() ==> key_before(r@[a].spec_key(), r@[b].spec_key()),
    {
        let keys = region_keys(&self.regions);
        proof {
            self.lemma_regions_view();
        }
        let r = coords_of(&keys);
        proof {
            assert forall|a: int, b: int| 0 <= a < b < r@.len() implies key_before(
                r@[a].spec_key(),
                r@[b].spec_key(),
            ) by {
                assert(r@.map_values(|c: RegionCoords| c.spec_key())[a] == keys@[a]);
                assert(r@.map_values(|c: RegionCoords| c.spec_key())[b] == keys@[b]);
            }
        }
        r
    }

    /// The parked regions, each once, ascending by `x` then `z`.
    pub fn parked_regions(&self) -> (r: Vec<RegionCoords>)
        ensures
            r@.map_values(|c: RegionCoords| c.spec_key()).to_set() == self@.parked.dom(),
            r@.len() == self@.parked.dom().len(),
            forall|a: int, b: int|
                0 <= a < b < r@.len() ==> key_before(r@[a].spec_key(), r@[b].spec_key()),
    {
        let keys = region_keys(&self.parked);
        let r = coords_of(&keys);
        proof {
            assert forall|a: int, b: int| 0 <= a < b < r@.len() implies key_before(
                r@[a].spec_key(),
                r@[b].spec_key(),
            ) by {
                assert(r@.map_values(|c: RegionCoords| c.spec_key())[a] == keys@[a]);
                assert(r@.map_values(|c: RegionCoords| c.spec_key())[b] == keys@[b]);
            }
        }
        r
    }

    /// Hands over every queued action, oldest first, and empties the queue.
    pub fn take_actions(&mut self) -> (r: Vec<Action<K, P, S>>)
        ensures
            r@ == old(self)@.outbox,
            final(self)@ == (ManagerView { outbox: Seq::<Action<K, P, S>>::empty(), ..old(self)@ }),
            subscriptions_consistent(old(self)@) ==> subscriptions_consistent(final(self)@),
    {
        let mut out: Vec<Action<K, P, S>> = Vec::new();
        std::mem::swap(&mut out, &mut self.outbox);
        proof {
            assert(self@.regions =~= old(self)@.regions);
            assert(self@.sessions =~= old(self)@.sessions);
        }
        out
    }
}

/// Region coordinates of the given keys, in the same order.
fn coords_of(keys: &Vec<(i32, i32)>) -> (r: Vec<RegionCoords>)
    requires
        keys@.no_duplicates(),
    ensures
        r@.map_values(|c: RegionCoords| c.spec_key()) == keys@,
        r@.len() == keys@.to_set().len(),
{
    let mut out: Vec<RegionCoords> = Vec::new();
    let mut i: usize = 0;
    while i < keys.len()
        invariant
            i <= keys@.len(),
            out@.len() == i,
            forall|j: int| 0 <= j < i ==> (#[trigger] out@[j]).spec_key() == keys@[j],
        decreases keys@.len() - i,
    {
        out.push(RegionCoords::from_key(keys[i]));
        i = i + 1;
    }
    proof {
        assert(out@.map_values(|c: RegionCoords| c.spec_key()) =~= keys@);
        keys@.unique_seq_to_set();
    }
    out
}

} // verus!
