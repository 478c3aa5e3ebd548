use game::state::{expired_ghosts, ghost_expired, EntityKey, GhostEntry, RollbackInfo};
use std::collections::BTreeMap;
use std::sync::atomic::Ordering;

fn entry(idx: u32, last: usize) -> GhostEntry {
    GhostEntry { entity: EntityKey { idx, version: 1 }, last_update_tick: last }
}

#[test]
fn rollback_info_starts_at_zero() {
    let info = RollbackInfo::new();
    assert_eq!(info.current.load(Ordering::SeqCst), 0);
    assert_eq!(info.oldest.load(Ordering::SeqCst), 0);
}

#[test]
fn ghost_lives_for_its_ttl() {
    assert!(!ghost_expired(25, &entry(1, 0)));
    assert!(ghost_expired(26, &entry(1, 0)));
    assert!(!ghost_expired(100, &entry(1, 80)));
    // A refresh stamped after `tick` counts as fresh.
    assert!(!ghost_expired(3, &entry(1, 50)));
}

#[test]
fn reaper_picks_exactly_the_stale_ghosts_in_identity_order() {
    let mut ghosts = BTreeMap::new();
    ghosts.insert(((0, 1), (4, 1)), entry(10, 0));
    ghosts.insert(((-1, 0), (2, 1)), entry(11, 90));
    ghosts.insert(((0, 0), (9, 3)), entry(12, 10));
    let out = expired_ghosts(100, &ghosts);
    assert_eq!(
        out,
        vec![
            (((0, 0), (9, 3)), EntityKey { idx: 12, version: 1 }),
            (((0, 1), (4, 1)), EntityKey { idx: 10, version: 1 }),
        ]
    );
    assert!(expired_ghosts(20, &ghosts).is_empty());
}

#[test]
fn entity_key_pair() {
    assert_eq!(EntityKey { idx: 3, version: 9 }.pair(), (3, 9));
    assert_eq!(GhostEntry::default().last_update_tick, 0);
}
