use game::protocol::RegionCoords;
use game::region::{LoggedEvent, ReconcileStep, Reconciler};

fn ev(id: usize, kind: u64) -> LoggedEvent {
    LoggedEvent { id, kind, identity: kind, region: RegionCoords::new(0, 0), quits: false }
}

#[test]
fn matching_server_event_confirms_the_oldest_prediction() {
    let mut r = Reconciler::new(0);
    r.record(ev(0, 1));
    r.record(ev(1, 2));
    let (plan, ok) = r.reconcile(ev(0, 1));
    assert!(ok);
    assert_eq!(plan, vec![ReconcileStep::Confirm]);
    assert_eq!(r.pending_event_ids(), vec![1]);
}

#[test]
fn out_of_order_event_waits_for_its_turn() {
    let mut r = Reconciler::new(0);
    r.record(ev(0, 1));
    r.record(ev(1, 2));
    let (plan, ok) = r.reconcile(ev(1, 2));
    assert!(ok);
    assert!(plan.is_empty());
    assert_eq!(r.pending_event_ids(), vec![0, 1]);
    let (plan, ok) = r.reconcile(ev(0, 1));
    assert!(ok);
    assert_eq!(plan, vec![ReconcileStep::Confirm, ReconcileStep::Confirm]);
    assert!(r.pending_event_ids().is_empty());
}

#[test]
fn unexpected_event_rolls_back_and_replays_renumbered_predictions() {
    let mut r = Reconciler::new(0);
    r.record(ev(0, 1));
    r.record(ev(1, 2));
    let server = ev(0, 9);
    let (plan, ok) = r.reconcile(server);
    assert!(ok);
    assert_eq!(
        plan,
        vec![
            ReconcileStep::Rollback(2),
            ReconcileStep::Apply(server),
            ReconcileStep::Replay(ev(1, 1)),
            ReconcileStep::Replay(ev(2, 2)),
        ]
    );
    assert_eq!(r.pending_event_ids(), vec![1, 2]);
}

#[test]
fn server_event_predicted_later_drops_that_prediction() {
    let mut r = Reconciler::new(0);
    r.record(ev(0, 1));
    r.record(ev(1, 2));
    r.record(ev(2, 3));
    let server = ev(0, 2);
    let (plan, ok) = r.reconcile(server);
    assert!(ok);
    assert_eq!(
        plan,
        vec![
            ReconcileStep::Rollback(3),
            ReconcileStep::Apply(server),
            ReconcileStep::Replay(ev(1, 1)),
            ReconcileStep::Replay(ev(2, 3)),
        ]
    );
    assert_eq!(r.pending_event_ids(), vec![1, 2]);
}

#[test]
fn transfer_matches_its_prediction_by_identity() {
    let mut r = Reconciler::new(0);
    let predicted = LoggedEvent { kind: 10, identity: 7, ..ev(0, 0) };
    r.record(predicted);
    let server = LoggedEvent { kind: 11, identity: 7, ..ev(0, 0) };
    let (plan, ok) = r.reconcile(server);
    assert!(ok);
    assert_eq!(plan, vec![ReconcileStep::Rollback(1), ReconcileStep::Apply(server)]);
    assert!(r.pending_event_ids().is_empty());
}

#[test]
fn failing_apply_ends_reconciliation_with_no_predictions() {
    let mut r = Reconciler::new(0);
    r.record(ev(0, 1));
    r.record(ev(1, 2));
    let quit = LoggedEvent { quits: true, ..ev(0, 5) };
    let (plan, ok) = r.reconcile(quit);
    assert!(!ok);
    assert_eq!(plan, vec![ReconcileStep::Rollback(2), ReconcileStep::Apply(quit)]);
    assert!(r.pending_event_ids().is_empty());
}

#[test]
fn events_older_than_the_snapshot_are_ignored() {
    let mut r = Reconciler::new(5);
    r.record(ev(5, 1));
    let (plan, ok) = r.reconcile(ev(3, 4));
    assert!(ok);
    assert!(plan.is_empty());
    assert_eq!(r.pending_event_ids(), vec![5]);
    // The ignored event was not buffered: the matching one still confirms.
    let (plan, _) = r.reconcile(ev(5, 1));
    assert_eq!(plan, vec![ReconcileStep::Confirm]);
}

#[test]
fn event_buffered_before_its_prediction_is_matched_later() {
    let mut r = Reconciler::new(0);
    let (plan, ok) = r.reconcile(ev(0, 1));
    assert!(ok);
    assert!(plan.is_empty());
    r.record(ev(0, 1));
    let (plan, ok) = r.reconcile(ev(1, 2));
    assert!(ok);
    assert_eq!(plan, vec![ReconcileStep::Confirm]);
    assert!(r.pending_event_ids().is_empty());
    // The second server event stays buffered until its prediction exists.
    r.record(ev(1, 2));
    let (plan, _) = r.reconcile(ev(2, 3));
    assert_eq!(plan, vec![ReconcileStep::Confirm]);
    assert!(r.pending_event_ids().is_empty());
}

#[test]
fn renumbered_prediction_is_confirmed_under_its_new_id() {
    let mut r = Reconciler::new(0);
    r.record(ev(0, 1));
    let server = ev(0, 9);
    r.reconcile(server);
    assert_eq!(r.pending_event_ids(), vec![1]);
    let (plan, ok) = r.reconcile(ev(1, 1));
    assert!(ok);
    assert_eq!(plan, vec![ReconcileStep::Confirm]);
    assert!(r.pending_event_ids().is_empty());
}
