//! Client-side prediction reconciliation: which locally predicted events the
//! server confirmed, and when the game state must be rolled back to process
//! the server's event and re-simulate the predictions after it.
//!
//! The reconciler keeps the bookkeeping; the host owns the rollbackable game
//! state and performs the returned [`ReconcileStep`]s on it in order.

use vstd::prelude::*;
use crate::protocol::RegionCoords;

verus! {

/// More buffered server events than this is a fault of the event stream.
pub const INPUT_BUFFER_LIMIT: usize = 1000;

/// A game event as reconciliation sees it: its id, the region it belongs
/// to, and two labels for its kind.
#[derive(Debug, Clone, Copy, PartialEq, Eq, Structural)]
pub struct LoggedEvent {
    pub id: usize,
    /// Equal for two events exactly when their kinds compare equal.
    pub kind: u64,
    /// Equal for two events exactly when one's kind matches the other as a
    /// prediction: a transfer or a mirror refresh by its source region and
    /// key, any other kind by equality.
    pub identity: u64,
    pub region: RegionCoords,
    /// Processing this kind fails (a quit request).
    pub quits: bool,
}

impl LoggedEvent {
    /// The same event one id later.
    pub open spec fn bumped(self) -> LoggedEvent {
        LoggedEvent { id: (self.id + 1) as usize, ..self }
    }
}

/// Two events are the same event: same id, same kind, same region.
pub open spec fn same_event(a: LoggedEvent, b: LoggedEvent) -> bool {
    &&& a.id == b.id
    &&& a.kind == b.kind
    &&& a.region == b.region
}

/// One piece of work on the game state, performed by the host in order.
#[derive(Debug, Clone, Copy, PartialEq, Eq, Structural)]
pub enum ReconcileStep {
    /// The oldest prediction was confirmed: drop its undo record.
    Confirm,
    /// Undo this many transactions, newest first.
    Rollback(usize),
    /// Process the server's event and drop its undo record; when processing
    /// fails, reconciliation ends there with that failure. It is not
    /// recorded as a prediction.
    Apply(LoggedEvent),
    /// Process a prediction's kind again; its outcome is ignored, and it is
    /// not recorded again (the reconciler keeps the renumbered prediction).
    Replay(LoggedEvent),
}

/// The reconciler's state.
pub struct ReconcilerView {
    /// Predicted events awaiting confirmation, oldest first.
    pub log: Seq<LoggedEvent>,
    /// Server events waiting for their turn.
    pub buffer: Seq<LoggedEvent>,
    /// Server events below this id are already part of the state.
    pub base_event_id: usize,
}

/// Position of the first event with the least id.
pub open spec fn min_pos(s: Seq<LoggedEvent>) -> int
    decreases s.len(),
{
    if s.len() <= 1 {
        0
    } else {
        let p = min_pos(s.drop_last());
        if s.last().id < s[p].id {
            s.len() - 1
        } else {
            p
        }
    }
}

/// Position of the first event with identity `identity`, or the length
/// when none has it.
pub open spec fn match_pos(log: Seq<LoggedEvent>, identity: u64) -> int {
    if exists|j: int| 0 <= j < log.len() && log[j].identity == identity {
        choose|j: int|
            0 <= j < log.len() && log[j].identity == identity && forall|k: int|
                0 <= k < j ==> log[k].identity != identity
    } else {
        log.len() as int
    }
}

/// `match_pos` is the first position with identity `identity`, or the
/// length when no event has it.
pub proof fn lemma_match_pos(log: Seq<LoggedEvent>, identity: u64)
    ensures
        0 <= match_pos(log, identity) <= log.len(),
        match_pos(log, identity) < log.len() ==> log[match_pos(log, identity)].identity == identity,
        forall|k: int| 0 <= k < match_pos(log, identity) ==> log[k].identity != identity,
{
    if exists|j: int| 0 <= j < log.len() && log[j].identity == identity {
        let j0 = choose|j: int| 0 <= j < log.len() && log[j].identity == identity;
        lemma_first_of_identity(log, identity, j0);
    }
}

proof fn lemma_first_of_identity(log: Seq<LoggedEvent>, identity: u64, j0: int)
    requires
        0 <= j0 < log.len(),
        log[j0].identity == identity,
    ensures
        exists|j: int|
            0 <= j < log.len() && log[j].identity == identity && forall|k: int|
                0 <= k < j ==> log[k].identity != identity,
    decreases j0,
{
    if exists|k: int| 0 <= k < j0 && log[k].identity == identity {
        let k0 = choose|k: int| 0 <= k < j0 && log[k].identity == identity;
        lemma_first_of_identity(log, identity, k0);
    }
}

/// The predictions after the server processed an event with identity
/// `identity` that they did not expect: the first prediction it matches
/// happened later and is dropped, and every prediction before that one
/// moves one id later (all of them when it matches none).
pub open spec fn renumbered(log: Seq<LoggedEvent>, identity: u64) -> Seq<LoggedEvent> {
    let m = match_pos(log, identity);
    if m < log.len() {
        log.take(m).map_values(|e: LoggedEvent| e.bumped()) + log.skip(m + 1)
    } else {
        log.map_values(|e: LoggedEvent| e.bumped())
    }
}

/// The replay of each prediction in `t`, in order.
pub open spec fn replays(t: Seq<LoggedEvent>) -> Seq<ReconcileStep> {
    t.map_values(|e: LoggedEvent| ReconcileStep::Replay(e))
}

/// The first least-id position lies inside a non-empty sequence.
pub proof fn lemma_min_pos_in_range(s: Seq<LoggedEvent>)
    requires
        s.len() >= 1,
    ensures
        0 <= min_pos(s) < s.len(),
    decreases s.len(),
{
    if s.len() > 1 {
        lemma_min_pos_in_range(s.drop_last());
    }
}

/// Matches buffered server events against the predictions, least id
/// first, while both are left: the log, the buffer, the steps (after
/// `plan`) and whether it ended without failure.
/// - A server event with another id than the oldest prediction arrived out
///   of order: it goes back to the buffer and matching stops.
/// - The same event confirms the oldest prediction.
/// - A different event with its id rolls back every prediction, is applied,
///   and the renumbered predictions are replayed; a failing apply ends
///   matching with no predictions left.
pub open spec fn settle(log: Seq<LoggedEvent>, buf: Seq<LoggedEvent>, plan: Seq<ReconcileStep>) -> (
    Seq<LoggedEvent>,
    Seq<LoggedEvent>,
    Seq<ReconcileStep>,
    bool,
)
    decreases buf.len(),
{
    if buf.len() == 0 || log.len() == 0 {
        (log, buf, plan, true)
    } else {
        proof {
            lemma_min_pos_in_range(buf);
        }
        let p = min_pos(buf);
        let s = buf[p];
        let rest = buf.remove(p);
        let e = log[0];
        if e.id != s.id {
            (log, rest.push(s), plan, true)
        } else if same_event(e, s) {
            settle(log.drop_first(), rest, plan.push(ReconcileStep::Confirm))
        } else {
            let undo = plan.push(ReconcileStep::Rollback(log.len() as usize)).push(
                ReconcileStep::Apply(s),
            );
            if s.quits {
                (Seq::empty(), rest, undo, false)
            } else {
                let t = renumbered(log, s.identity);
                settle(t, rest, undo + replays(t))
            }
        }
    }
}

/// `min_pos` picks an event whose id is no greater than any other's.
pub proof fn lemma_min_pos_least(s: Seq<LoggedEvent>)
    requires
        s.len() >= 1,
    ensures
        forall|i: int| 0 <= i < s.len() ==> s[min_pos(s)].id <= #[trigger] s[i].id,
    decreases s.len(),
{
    lemma_min_pos_in_range(s);
    if s.len() > 1 {
        let t = s.drop_last();
        lemma_min_pos_least(t);
        lemma_min_pos_in_range(t);
        assert forall|i: int| 0 <= i < s.len() implies s[min_pos(s)].id <= #[trigger] s[i].id by {
            if i < s.len() - 1 {
                assert(s[i] == t[i]);
            }
        }
    }
}

/// Matching ends without a failure only when it cannot go on: no buffered
/// event is left, no prediction is left, or the least buffered id is not
/// the oldest prediction's id (an event that arrived out of order). A
/// failure leaves no predictions. Steps already planned are kept in front.
pub proof fn lemma_settle_stops_only_when_stuck(
    log: Seq<LoggedEvent>,
    buf: Seq<LoggedEvent>,
    plan: Seq<ReconcileStep>,
)
    ensures
        ({
            let r = settle(log, buf, plan);
            &&& r.3 && r.0.len() > 0 && r.1.len() > 0 ==> exists|j: int|
                0 <= j < r.1.len() && r.1[j].id != r.0[0].id && forall|k: int|
                    0 <= k < r.1.len() ==> r.1[j].id <= #[trigger] r.1[k].id
            &&& !r.3 ==> r.0.len() == 0
            &&& plan.is_prefix_of(r.2)
        }),
    decreases buf.len(),
{
    if buf.len() == 0 || log.len() == 0 {
        assert(plan.is_prefix_of(plan));
    } else {
        lemma_min_pos_in_range(buf);
        lemma_min_pos_least(buf);
        let p = min_pos(buf);
        let s = buf[p];
        let rest = buf.remove(p);
        let e = log[0];
        if e.id != s.id {
            let b = rest.push(s);
            assert(b[rest.len() as int] == s);
            assert forall|k: int| 0 <= k < b.len() implies s.id <= #[trigger] b[k].id by {
                if k < p {
                    assert(b[k] == buf[k]);
                } else if k < rest.len() {
                    assert(b[k] == buf[k + 1]);
                }
            }
            assert(plan.is_prefix_of(plan));
        } else if same_event(e, s) {
            lemma_settle_stops_only_when_stuck(log.drop_first(), rest, plan.push(ReconcileStep::Confirm));
            assert(plan.is_prefix_of(plan.push(ReconcileStep::Confirm)));
        } else {
            let undo = plan.push(ReconcileStep::Rollback(log.len() as usize)).push(
                ReconcileStep::Apply(s),
            );
            assert(plan.is_prefix_of(undo));
            if !s.quits {
                let t = renumbered(log, s.identity);
                lemma_settle_stops_only_when_stuck(t, rest, undo + replays(t));
                assert(plan.is_prefix_of(undo + replays(t)));
            }
        }
    }
}

/// Every prediction's id leaves room for `n` more renumberings.
pub open spec fn ids_below(log: Seq<LoggedEvent>, n: int) -> bool {
    forall|i: int| 0 <= i < log.len() ==> (#[trigger] log[i]).id + n < usize::MAX
}

/// Reconciles locally predicted events against the events the server
/// processed.
pub struct Reconciler {
    log: Vec<LoggedEvent>,
    buffer: Vec<LoggedEvent>,
    base_event_id: usize,
}

impl View for Reconciler {
    type V = ReconcilerView;

    closed spec fn view(&self) -> ReconcilerView {
        ReconcilerView { log: self.log@, buffer: self.buffer@, base_event_id: self.base_event_id }
    }
}

/// Takes the first buffered event with the least id out of the buffer.
fn pop_min(buf: &mut Vec<LoggedEvent>) -> (r: LoggedEvent)
    requires
        old(buf)@.len() >= 1,
    ensures
        0 <= min_pos(old(buf)@) < old(buf)@.len(),
        r == old(buf)@[min_pos(old(buf)@)],
        final(buf)@ == old(buf)@.remove(min_pos(old(buf)@)),
{
    let mut p: usize = 0;
    let mut i: usize = 1;
    while i < buf.len()
        invariant
            1 <= i <= buf@.len(),
            p < i,
            p == min_pos(buf@.take(i as int)),
        decreases buf@.len() - i,
    {
        proof {
            let s = buf@.take(i + 1);
            assert(s.drop_last() =~= buf@.take(i as int));
            assert(s.last() == buf@[i as int]);
            assert(s[p as int] == buf@[p as int]);
        }
        if buf[i].id < buf[p].id {
            p = i;
        }
        i = i + 1;
    }
    proof {
        assert(buf@.take(i as int) =~= buf@);
    }
    buf.remove(p)
}

/// `log` with its predictions renumbered after a server event with
/// identity `identity` they did not expect.
fn renumber(log: &Vec<LoggedEvent>, identity: u64) -> (r: Vec<LoggedEvent>)
    requires
        ids_below(log@, 1),
    ensures
        r@ == renumbered(log@, identity),
{
    let mut t: Vec<LoggedEvent> = log.clone();
    proof {
        assert(t@ =~= log@);
    }
    let mut i: usize = 0;
    while i < t.len()
        invariant
            i <= log@.len(),
            ids_below(log@, 1),
            forall|k: int| 0 <= k < i ==> log@[k].identity != identity,
            t@ == log@.take(i as int).map_values(|e: LoggedEvent| e.bumped()) + log@.skip(
                i as int,
            ),
        decreases log@.len() - i,
    {
        let e = t[i];
        proof {
            assert(t@[i as int] == log@[i as int]);
        }
        if e.identity == identity {
            t.remove(i);
            proof {
                assert(t@ =~= log@.take(i as int).map_values(|e: LoggedEvent| e.bumped())
                    + log@.skip(i + 1));
                assert(match_pos(log@, identity) == i) by {
                    let j = choose|j: int|
                        0 <= j < log@.len() && log@[j].identity == identity && forall|k: int|
                            0 <= k < j ==> log@[k].identity != identity;
                    assert(0 <= i < log@.len() && log@[i as int].identity == identity);
                    if j < i {
                        assert(log@[j].identity != identity);
                    }
                    if i < j {
                        assert(log@[i as int].identity != identity);
                    }
                }
            }
            return t;
        }
        let b = LoggedEvent { id: e.id + 1, ..e };
        t[i] = b;
        proof {
            assert(t@ =~= log@.take(i + 1).map_values(|e: LoggedEvent| e.bumped()) + log@.skip(
                i + 1,
            ));
        }
        i = i + 1;
    }
    proof {
        assert(log@.take(i as int) =~= log@);
        assert(log@.skip(i as int) =~= Seq::<LoggedEvent>::empty());
        assert(t@ =~= log@.map_values(|e: LoggedEvent| e.bumped()));
        assert(!exists|j: int| 0 <= j < log@.len() && log@[j].identity == identity);
    }
    t
}

impl Reconciler {
    /// A reconciler for a region built from a snapshot whose next event id
    /// was `base_event_id`: nothing predicted, nothing buffered.
    pub fn new(base_event_id: usize) -> (r: Reconciler)
        ensures
            r@.log == Seq::<LoggedEvent>::empty(),
            r@.buffer == Seq::<LoggedEvent>::empty(),
            r@.base_event_id == base_event_id,
    {
        Reconciler { log: Vec::new(), buffer: Vec::new(), base_event_id }
    }

    /// Records an event the host just processed locally, as the newest
    /// prediction.
    pub fn record(&mut self, event: LoggedEvent)
        ensures
            final(self)@ == (ReconcilerView { log: old(self)@.log.push(event), ..old(self)@ }),
    {
        self.log.push(event);
    }

    /// Ids of locally predicted events awaiting server confirmation, oldest
    /// first.
    pub fn pending_event_ids(&self) -> (r: Vec<usize>)
        ensures
            r@ == self@.log.map_values(|e: LoggedEvent| e.id),
    {
        let mut r: Vec<usize> = Vec::new();
        let mut i: usize = 0;
        while i < self.log.len()
            invariant
                i <= self.log@.len(),
                r@ == self.log@.take(i as int).map_values(|e: LoggedEvent| e.id),
            decreases self.log@.len() - i,
        {
            r.push(self.log[i].id);
            proof {
                assert(self.log@.take(i + 1) =~= self.log@.take(i as int).push(self.log@[i as int]));
                assert(r@ =~= self.log@.take(i + 1).map_values(|e: LoggedEvent| e.id));
            }
            i = i + 1;
        }
        proof {
            assert(self.log@.take(i as int) =~= self.log@);
        }
        r
    }

    /// Takes in an event the server processed. An event older than the
    /// snapshot the region was built from is already part of the state and
    /// is ignored. Otherwise it is buffered, and buffered events are matched
    /// against the predictions (see `settle`). Returns the steps the host
    /// performs on the game state, and `false` when applying a server event
    /// failed (the last step).
    pub fn reconcile(&mut self, server_event: LoggedEvent) -> (r: (Vec<ReconcileStep>, bool))
        requires
            server_event.id < old(self)@.base_event_id || old(self)@.buffer.len()
                < INPUT_BUFFER_LIMIT,
            ids_below(old(self)@.log, INPUT_BUFFER_LIMIT as int),
        ensures
            server_event.id < old(self)@.base_event_id ==> final(self)@ == old(self)@ && r.0@
                == Seq::<ReconcileStep>::empty() && r.1,
            server_event.id >= old(self)@.base_event_id ==> {
                let s = settle(
                    old(self)@.log,
                    old(self)@.buffer.push(server_event),
                    Seq::empty(),
                );
                &&& final(self)@ == (ReconcilerView {
                    log: s.0,
                    buffer: s.1,
                    base_event_id: old(self)@.base_event_id,
                })
                &&& r.0@ == s.2
                &&& r.1 == s.3
            },
            server_event.id >= old(self)@.base_event_id && r.1 && final(self)@.log.len() > 0
                && final(self)@.buffer.len() > 0 ==> exists|j: int|
                0 <= j < final(self)@.buffer.len()
                    && final(self)@.buffer[j].id != final(self)@.log[0].id && forall|k: int|
                    0 <= k < final(self)@.buffer.len() ==> final(self)@.buffer[j].id
                        <= #[trigger] final(self)@.buffer[k].id,
            !r.1 ==> final(self)@.log.len() == 0,
    {
        let mut plan: Vec<ReconcileStep> = Vec::new();
        if server_event.id < self.base_event_id {
            return (plan, true);
        }
        self.buffer.push(server_event);
        let ghost target = settle(self.log@, self.buffer@, Seq::empty());
        loop
            invariant
                server_event.id >= old(self)@.base_event_id,
                target == settle(old(self)@.log, old(self)@.buffer.push(server_event), Seq::empty()),
                settle(self.log@, self.buffer@, plan@) == target,
                ids_below(self.log@, self.buffer@.len() as int),
                self.base_event_id == old(self)@.base_event_id,
            decreases self.buffer@.len(),
        {
            proof {
                lemma_settle_stops_only_when_stuck(
                    old(self)@.log,
                    old(self)@.buffer.push(server_event),
                    Seq::empty(),
                );
            }
            if self.buffer.len() == 0 || self.log.len() == 0 {
                return (plan, true);
            }
            let ghost log0 = self.log@;
            let ghost buf0 = self.buffer@;
            let s = pop_min(&mut self.buffer);
            let e = self.log[0];
            if e.id != s.id {
                self.buffer.push(s);
                return (plan, true);
            }
            if e.kind == s.kind && e.region == s.region {
                self.log.remove(0);
                plan.push(ReconcileStep::Confirm);
                proof {
                    assert(self.log@ =~= log0.drop_first());
                    assert forall|i: int| 0 <= i < self.log@.len() implies (
                    #[trigger] self.log@[i]).id + self.buffer@.len() < usize::MAX by {
                        assert(self.log@[i] == log0[i + 1]);
                    }
                }
                continue;
            }
            plan.push(ReconcileStep::Rollback(self.log.len()));
            plan.push(ReconcileStep::Apply(s));
            if s.quits {
                self.log = Vec::new();
                return (plan, false);
            }
            proof {
                assert forall|i: int| 0 <= i < log0.len() implies (#[trigger] log0[i]).id + 1
                    < usize::MAX by {
                    assert(log0[i].id + buf0.len() < usize::MAX);
                }
            }
            let t = renumber(&self.log, s.identity);
            let mut j: usize = 0;
            let ghost plan0 = plan@;
            while j < t.len()
                invariant
                    j <= t@.len(),
                    plan@ == plan0 + replays(t@.take(j as int)),
                decreases t@.len() - j,
            {
                plan.push(ReconcileStep::Replay(t[j]));
                proof {
                    assert(t@.take(j + 1) =~= t@.take(j as int).push(t@[j as int]));
                    assert(replays(t@.take(j + 1)) =~= replays(t@.take(j as int)).push(
                        ReconcileStep::Replay(t@[j as int]),
                    ));
                }
                j = j + 1;
            }
            proof {
                assert(t@.take(j as int) =~= t@);
                assert forall|i: int| 0 <= i < t@.len() implies (#[trigger] t@[i]).id
                    + self.buffer@.len() < usize::MAX by {
                    let m = match_pos(log0, s.identity);
                    lemma_match_pos(log0, s.identity);
                    if m < log0.len() {
                        if i < m {
                            assert(t@[i] == log0[i].bumped());
                            assert(log0[i].id + buf0.len() < usize::MAX);
                        } else {
                            assert(t@[i] == log0[i + 1]);
                            assert(log0[i + 1].id + buf0.len() < usize::MAX);
                        }
                    } else {
                        assert(t@[i] == log0[i].bumped());
                        assert(log0[i].id + buf0.len() < usize::MAX);
                    }
                }
            }
            self.log = t;
        }
    }
}

/// A server event that is the oldest prediction itself, arriving with
/// nothing else buffered, confirms that prediction and nothing more.
pub proof fn lemma_matching_event_confirms(log: Seq<LoggedEvent>, server_event: LoggedEvent)
    requires
        log.len() >= 1,
        same_event(log[0], server_event),
    ensures
        settle(log, seq![server_event], Seq::empty()) == (
            log.drop_first(),
            Seq::<LoggedEvent>::empty(),
            seq![ReconcileStep::Confirm],
            true,
        ),
{
    reveal_with_fuel(settle, 2);
    let buf = seq![server_event];
    assert(min_pos(buf) == 0);
    assert(buf.remove(0) =~= Seq::<LoggedEvent>::empty());
    assert(Seq::<ReconcileStep>::empty().push(ReconcileStep::Confirm) =~= seq![
        ReconcileStep::Confirm,
    ]);
}

/// A server event whose id is not the oldest prediction's, arriving with
/// nothing else buffered, waits in the buffer and changes nothing else.
pub proof fn lemma_out_of_order_event_waits(log: Seq<LoggedEvent>, server_event: LoggedEvent)
    requires
        log.len() >= 1,
        log[0].id != server_event.id,
    ensures
        settle(log, seq![server_event], Seq::empty()) == (
            log,
            seq![server_event],
            Seq::<ReconcileStep>::empty(),
            true,
        ),
{
    let buf = seq![server_event];
    assert(min_pos(buf) == 0);
    assert(buf.remove(0).push(server_event) =~= buf);
}

/// A server event that differs from the prediction with its id, arriving
/// with nothing else buffered, rolls back every prediction, is applied, and
/// the renumbered predictions are replayed and kept; a failing apply leaves
/// no predictions.
pub proof fn lemma_mismatch_resimulates(log: Seq<LoggedEvent>, server_event: LoggedEvent)
    requires
        log.len() >= 1,
        log[0].id == server_event.id,
        !same_event(log[0], server_event),
    ensures
        ({
            let r = settle(log, seq![server_event], Seq::empty());
            let undo = seq![
                ReconcileStep::Rollback(log.len() as usize),
                ReconcileStep::Apply(server_event),
            ];
            if server_event.quits {
                r == (Seq::<LoggedEvent>::empty(), Seq::<LoggedEvent>::empty(), undo, false)
            } else {
                let t = renumbered(log, server_event.identity);
                r == (t, Seq::<LoggedEvent>::empty(), undo + replays(t), true)
            }
        }),
{
    reveal_with_fuel(settle, 2);
    let buf = seq![server_event];
    assert(min_pos(buf) == 0);
    assert(buf.remove(0) =~= Seq::<LoggedEvent>::empty());
    assert(Seq::<ReconcileStep>::empty().push(ReconcileStep::Rollback(log.len() as usize)).push(
        ReconcileStep::Apply(server_event),
    ) =~= seq![ReconcileStep::Rollback(log.len() as usize), ReconcileStep::Apply(server_event)]);
}

} // verus!
