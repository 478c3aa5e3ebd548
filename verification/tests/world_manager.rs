use game::protocol::{RegionCoords, SerializedRegion};
use game::world_manager::{
    spawn_region, Action, ClientPacket, Departure, EventClass, OnFail, RegionEvent, RegionInput,
    RegionOutput, ServerEvent, WorldManager, UNLOAD_GRACE_MS,
};

type Manager = WorldManager<u32, u32, u32>;

fn rc(x: i32, z: i32) -> RegionCoords {
    RegionCoords::new(x, z)
}

fn subscribe(m: &mut Manager, client: usize, r: RegionCoords, now: u64) {
    assert!(m.handle_server_event(
        ServerEvent::ClientPacket(ClientPacket::RequestRegionConnection(r), client),
        now
    ));
}

fn release(m: &mut Manager, client: usize, r: RegionCoords, now: u64) {
    assert!(m.handle_server_event(
        ServerEvent::ClientPacket(ClientPacket::ReleaseRegionConnection(r), client),
        now
    ));
}

fn is_spawn(a: &Action<u32, u32, u32>, r: RegionCoords) -> bool {
    matches!(a, Action::Spawn { region, .. } if *region == r)
}

#[test]
fn first_connect_creates_the_player_once() {
    let mut m = Manager::new();
    assert!(m.handle_server_event(ServerEvent::ClientConnected(7), 0));
    let actions = m.take_actions();
    assert_eq!(actions.len(), 2);
    assert!(matches!(&actions[0], Action::Spawn { region, parked: None } if *region == spawn_region()));
    assert!(matches!(
        &actions[1],
        Action::Deliver {
            region,
            input: RegionInput::Event(RegionEvent::CreateClient(7)),
            on_fail: OnFail::Respawn
        } if *region == rc(0, 0)
    ));
    assert_eq!(m.running_regions(), vec![rc(0, 0)]);

    // Reconnect: the player already exists; nothing is created.
    assert!(m.handle_server_event(ServerEvent::ClientDisconnected(7), 10));
    assert!(m.handle_server_event(ServerEvent::ClientConnected(7), 20));
    assert!(m.take_actions().is_empty());
}

#[test]
fn quit_event_stops_the_server() {
    let mut m = Manager::new();
    let quit = ServerEvent::ClientPacket(
        ClientPacket::GameEvent { class: EventClass::Quit, kind: 0, region: rc(0, 0) },
        1,
    );
    assert!(!m.handle_server_event(quit, 0));
    assert!(m.take_actions().is_empty());
}

#[test]
fn subscribe_wakes_region_and_requests_snapshot() {
    let mut m = Manager::new();
    m.handle_server_event(ServerEvent::ClientConnected(1), 0);
    m.take_actions();
    subscribe(&mut m, 1, rc(2, 3), 0);
    let actions = m.take_actions();
    assert_eq!(actions.len(), 2);
    assert!(is_spawn(&actions[0], rc(2, 3)));
    assert!(matches!(
        &actions[1],
        Action::Deliver { region, input: RegionInput::RequestSnapshot(1), .. } if *region == rc(2, 3)
    ));
}

#[test]
fn sessionless_subscribe_is_dropped() {
    let mut m = Manager::new();
    subscribe(&mut m, 9, rc(1, 1), 0);
    assert!(m.take_actions().is_empty());
    assert!(m.running_regions().is_empty());
}

#[test]
fn released_region_parks_after_the_grace_period_and_comes_back() {
    let mut m = Manager::new();
    m.handle_server_event(ServerEvent::ClientConnected(1), 0);
    subscribe(&mut m, 1, rc(5, 5), 0);
    release(&mut m, 1, rc(5, 5), 100);
    m.take_actions();

    m.maintain(100 + UNLOAD_GRACE_MS - 1);
    assert!(m.take_actions().is_empty(), "still inside the grace period");

    m.maintain(100 + UNLOAD_GRACE_MS);
    let actions = m.take_actions();
    assert_eq!(actions.len(), 1);
    assert!(matches!(
        &actions[0],
        Action::Deliver { region, input: RegionInput::Shutdown, on_fail: OnFail::Remove } if *region == rc(5, 5)
    ));

    let state = SerializedRegion(vec![1, 2, 3]);
    m.handle_region_output(rc(5, 5), RegionOutput::Stopped(state.clone()), 6000);
    let actions = m.take_actions();
    assert_eq!(actions.len(), 1);
    assert!(matches!(&actions[0], Action::Reap(r) if *r == rc(5, 5)));
    assert_eq!(m.parked_regions(), vec![rc(5, 5)]);
    assert!(!m.running_regions().contains(&rc(5, 5)));

    // Resubscribing restores the parked state.
    subscribe(&mut m, 1, rc(5, 5), 7000);
    let actions = m.take_actions();
    assert!(matches!(&actions[0], Action::Spawn { region, parked: Some(s) } if *region == rc(5, 5) && *s == state));
    assert!(m.parked_regions().is_empty());
}

#[test]
fn home_region_is_never_unloaded_while_connected() {
    let mut m = Manager::new();
    m.handle_server_event(ServerEvent::ClientConnected(1), 0);
    m.take_actions();
    m.maintain(10 * UNLOAD_GRACE_MS);
    assert!(m.take_actions().is_empty());
    // After the disconnect the home loses its keep-alive reason.
    m.handle_server_event(ServerEvent::ClientDisconnected(1), 1000);
    m.maintain(1000 + UNLOAD_GRACE_MS);
    let actions = m.take_actions();
    assert_eq!(actions.len(), 1);
    assert!(matches!(&actions[0], Action::Deliver { input: RegionInput::Shutdown, .. }));
}

#[test]
fn subscribe_while_stopping_is_replayed_after_stopped() {
    let mut m = Manager::new();
    m.handle_server_event(ServerEvent::ClientConnected(1), 0);
    subscribe(&mut m, 1, rc(4, 0), 0);
    release(&mut m, 1, rc(4, 0), 0);
    m.maintain(UNLOAD_GRACE_MS);
    m.take_actions();
    // Asked for again while stopping: no snapshot yet.
    subscribe(&mut m, 1, rc(4, 0), UNLOAD_GRACE_MS + 1);
    assert!(m.take_actions().is_empty());
    m.handle_region_output(rc(4, 0), RegionOutput::Stopped(SerializedRegion(vec![9])), 0);
    let actions = m.take_actions();
    assert_eq!(actions.len(), 3);
    assert!(matches!(&actions[0], Action::Reap(_)));
    assert!(matches!(&actions[1], Action::Spawn { parked: Some(_), .. }));
    assert!(matches!(&actions[2], Action::Deliver { input: RegionInput::RequestSnapshot(1), .. }));
}

#[test]
fn processed_events_reach_exactly_the_subscribers() {
    let mut m = Manager::new();
    for c in [1usize, 2, 3] {
        m.handle_server_event(ServerEvent::ClientConnected(c), 0);
    }
    subscribe(&mut m, 1, rc(0, 0), 0);
    subscribe(&mut m, 3, rc(0, 0), 0);
    m.take_actions();
    m.handle_region_output(rc(0, 0), RegionOutput::EventProcessed(77), 0);
    let actions = m.take_actions();
    assert_eq!(actions.len(), 1);
    match &actions[0] {
        Action::SendEvent { to, event } => {
            assert_eq!(*to, vec![1, 3]);
            assert_eq!(*event, 77);
        }
        _ => panic!("expected SendEvent"),
    }
    // Output of a region that is not running goes nowhere.
    m.handle_region_output(rc(9, 9), RegionOutput::EventProcessed(1), 0);
    assert!(m.take_actions().is_empty());
}

#[test]
fn ghost_updates_never_wake_a_region() {
    let mut m = Manager::new();
    m.handle_server_event(ServerEvent::ClientConnected(1), 0);
    m.take_actions();
    m.handle_region_output(rc(0, 0), RegionOutput::GhostUpdates(vec![(5, rc(1, 0)), (6, rc(0, 0))]), 0);
    let actions = m.take_actions();
    assert_eq!(actions.len(), 1);
    assert!(matches!(
        &actions[0],
        Action::Deliver { region, input: RegionInput::Event(RegionEvent::Forward(6)), .. } if *region == rc(0, 0)
    ));
    assert_eq!(m.running_regions(), vec![rc(0, 0)]);
}

#[test]
fn arrivals_always_wake_the_target_and_move_the_home() {
    let mut m = Manager::new();
    m.handle_server_event(ServerEvent::ClientConnected(1), 0);
    m.take_actions();
    let d = Departure { arrival: 42u32, target: rc(1, 0), client: Some(1) };
    m.handle_region_output(rc(0, 0), RegionOutput::Departures(vec![d]), 0);
    let actions = m.take_actions();
    assert_eq!(actions.len(), 3);
    assert!(is_spawn(&actions[0], rc(1, 0)));
    assert!(matches!(
        &actions[1],
        Action::Deliver { input: RegionInput::Event(RegionEvent::Forward(42)), .. }
    ));
    assert!(matches!(&actions[2], Action::SendPlayerRegion { to: 1, home: Some(h) } if *h == rc(1, 0)));
    m.handle_server_event(ServerEvent::ClientPacket(ClientPacket::RequestPlayerRegion, 1), 0);
    let actions = m.take_actions();
    assert!(matches!(&actions[0], Action::SendPlayerRegion { to: 1, home: Some(h) } if *h == rc(1, 0)));
}

#[test]
fn player_input_routes_to_the_home_region() {
    let mut m = Manager::new();
    m.handle_server_event(ServerEvent::ClientConnected(4), 0);
    m.take_actions();
    let ev = ServerEvent::ClientPacket(
        ClientPacket::GameEvent { class: EventClass::PlayerInput(4), kind: 3, region: rc(8, 8) },
        4,
    );
    m.handle_server_event(ev, 0);
    let actions = m.take_actions();
    assert_eq!(actions.len(), 1);
    assert!(matches!(
        &actions[0],
        Action::Deliver { region, input: RegionInput::Event(RegionEvent::Forward(3)), .. } if *region == rc(0, 0)
    ));
    // Manager-internal kinds are dropped.
    let ev = ServerEvent::ClientPacket(
        ClientPacket::GameEvent { class: EventClass::GhostUpdate, kind: 3, region: rc(0, 0) },
        4,
    );
    m.handle_server_event(ev, 0);
    assert!(m.take_actions().is_empty());
}

#[test]
fn dead_region_is_respawned_and_resnapshots_subscribers() {
    let mut m = Manager::new();
    m.handle_server_event(ServerEvent::ClientConnected(1), 0);
    m.handle_server_event(ServerEvent::ClientConnected(2), 0);
    subscribe(&mut m, 1, rc(0, 0), 0);
    subscribe(&mut m, 2, rc(0, 0), 0);
    m.take_actions();
    m.region_died(rc(0, 0), None);
    let actions = m.take_actions();
    assert_eq!(actions.len(), 4);
    assert!(matches!(&actions[0], Action::Reap(r) if *r == rc(0, 0)));
    assert!(matches!(&actions[1], Action::Spawn { parked: None, .. }));
    let snap: Vec<usize> = actions[2..]
        .iter()
        .map(|a| match a {
            Action::Deliver { input: RegionInput::RequestSnapshot(c), on_fail: OnFail::Ignore, .. } => *c,
            _ => panic!("expected a resnapshot"),
        })
        .collect();
    assert_eq!(snap, vec![1, 2]);
}

#[test]
fn respawned_arrival_target_still_parks_without_a_keepalive_reason() {
    // The player's client is not connected, so the target is nobody's home.
    let mut m = Manager::new();
    let d = Departure { arrival: 42u32, target: rc(1, 0), client: Some(9) };
    m.handle_region_output(rc(0, 0), RegionOutput::Departures(vec![d]), 100);
    let actions = m.take_actions();
    assert_eq!(actions.len(), 3);
    assert!(is_spawn(&actions[0], rc(1, 0)));
    let on_fail = match &actions[1] {
        Action::Deliver { region, input: RegionInput::Event(RegionEvent::Forward(42)), on_fail }
            if *region == rc(1, 0) => *on_fail,
        _ => panic!("expected the arrival"),
    };
    assert_eq!(on_fail, OnFail::RespawnThenRefresh { now_ms: 100 });
    // The delivery fails: the target died before taking the arrival.
    m.region_died(rc(1, 0), Some(100));
    let actions = m.take_actions();
    assert_eq!(actions.len(), 2);
    assert!(matches!(&actions[0], Action::Reap(r) if *r == rc(1, 0)));
    assert!(is_spawn(&actions[1], rc(1, 0)));
    m.maintain(100 + UNLOAD_GRACE_MS - 1);
    assert!(m.take_actions().is_empty());
    m.maintain(100 + UNLOAD_GRACE_MS);
    let actions = m.take_actions();
    assert_eq!(actions.len(), 1);
    assert!(matches!(
        &actions[0],
        Action::Deliver { region, input: RegionInput::Shutdown, on_fail: OnFail::Remove } if *region == rc(1, 0)
    ));
}

#[test]
fn failed_shutdown_drops_the_region() {
    let mut m = Manager::new();
    m.handle_server_event(ServerEvent::ClientConnected(1), 0);
    m.take_actions();
    m.shutdown_failed(rc(0, 0));
    let actions = m.take_actions();
    assert!(matches!(&actions[0], Action::Reap(r) if *r == rc(0, 0)));
    assert!(m.running_regions().is_empty());
    assert!(m.parked_regions().is_empty());
    m.shutdown_failed(rc(3, 3));
    assert!(m.take_actions().is_empty());
}

#[test]
fn shutdown_all_asks_every_running_region_once() {
    let mut m = Manager::new();
    m.handle_server_event(ServerEvent::ClientConnected(1), 0);
    subscribe(&mut m, 1, rc(1, 1), 0);
    m.take_actions();
    m.shutdown_all();
    let actions = m.take_actions();
    assert_eq!(actions.len(), 2);
    assert!(actions.iter().all(|a| matches!(
        a,
        Action::Deliver { input: RegionInput::Shutdown, on_fail: OnFail::Ignore, .. }
    )));
    assert!(matches!(&actions[0], Action::Deliver { region, .. } if *region == rc(0, 0)));
    assert!(matches!(&actions[1], Action::Deliver { region, .. } if *region == rc(1, 1)));
    m.shutdown_all();
    assert!(m.take_actions().is_empty(), "already stopping");
}

#[test]
fn snapshots_and_clock_syncs_are_relayed() {
    let mut m = Manager::new();
    m.handle_server_event(ServerEvent::ClientConnected(1), 0);
    subscribe(&mut m, 1, rc(0, 0), 0);
    m.take_actions();
    m.handle_region_output(rc(0, 0), RegionOutput::Snapshot(1, 55), 0);
    m.handle_region_output(rc(0, 0), RegionOutput::SyncClock { tick_rate: 20, tick: 9 }, 0);
    let actions = m.take_actions();
    assert!(matches!(&actions[0], Action::SendSnapshot { to: 1, snapshot: 55, .. }));
    assert!(matches!(
        &actions[1],
        Action::SendSyncClock { to, tick_rate: 20, tick: 9, .. } if *to == vec![1usize]
    ));
}

/// Milliseconds per simulation tick.
const TICK_MS: u64 = 50;

#[test]
fn offline_window_loads_nine_regions() {
    let mut m = Manager::new();
    m.handle_server_event(ServerEvent::ClientConnected(0), 0);
    for r in RegionCoords::new(0, 0).window_3x3() {
        subscribe(&mut m, 0, r, 0);
    }
    let running = m.running_regions();
    let mut expected = RegionCoords::new(0, 0).window_3x3();
    expected.sort();
    assert_eq!(running, expected, "3x3 offline window loaded");
    let snapshots = m
        .take_actions()
        .iter()
        .filter(|a| matches!(a, Action::Deliver { input: RegionInput::RequestSnapshot(0), .. }))
        .count();
    assert_eq!(snapshots, 9);
}

#[test]
fn offline_release_parks_and_resubscribe_restores() {
    let mut m = Manager::new();
    m.handle_server_event(ServerEvent::ClientConnected(0), 0);
    m.take_actions();
    let corner = rc(-1, -1);
    subscribe(&mut m, 0, corner, 0);
    assert!(
        m.take_actions().iter().any(|a| matches!(
            a,
            Action::Deliver { region, input: RegionInput::RequestSnapshot(0), .. } if *region == corner
        )),
        "snapshot on first subscribe"
    );

    release(&mut m, 0, corner, 0);
    // One maintain per tick, past the grace period; the corner answers its
    // shutdown with its state.
    let mut now = 0;
    let mut parked = false;
    for _ in 0..(UNLOAD_GRACE_MS / TICK_MS + 2) {
        now += TICK_MS;
        m.maintain(now);
        for a in m.take_actions() {
            if let Action::Deliver { region, input: RegionInput::Shutdown, .. } = a {
                assert_eq!(region, corner);
                m.handle_region_output(region, RegionOutput::Stopped(SerializedRegion(vec![7])), now);
                parked = true;
            }
        }
    }
    assert!(parked);
    m.take_actions();
    assert_eq!(m.parked_regions(), vec![corner]);

    subscribe(&mut m, 0, corner, now);
    let actions = m.take_actions();
    assert!(matches!(
        &actions[0],
        Action::Spawn { region, parked: Some(s) } if *region == corner && s.0 == vec![7]
    ));
    assert!(
        actions.iter().any(|a| matches!(
            a,
            Action::Deliver { region, input: RegionInput::RequestSnapshot(0), .. } if *region == corner
        )),
        "parked region restored on resubscribe"
    );
}
