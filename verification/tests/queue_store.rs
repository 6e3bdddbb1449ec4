use frogrs::input::BoxInput;
use frogrs::input::InputQueue;
use frogrs::snapshot::SnapshotStore;

fn inp(v: u8) -> BoxInput {
    BoxInput { inp: v }
}

#[test]
fn fresh_queue_answers_with_seeded_default() {
    let q = InputQueue::new(inp(9));
    assert_eq!(q.get(0), inp(9));
    assert_eq!(q.get(100), inp(9));
    assert_eq!(q.confirmed_frontier(), 0);
}

#[test]
fn record_then_get() {
    let mut q = InputQueue::new(inp(0));
    q.record(0, inp(2), false);
    assert_eq!(q.get(0), inp(2));
    // Beyond the stored run the fallback answers; nothing was confirmed yet.
    assert_eq!(q.get(5), inp(0));
}

#[test]
fn confirm_reports_divergence_exactly_once() {
    let mut q = InputQueue::new(inp(0));
    q.record(0, inp(2), false);
    // The prediction said 2, the truth is 4: divergence.
    assert!(q.confirm(0, inp(4)));
    assert_eq!(q.get(0), inp(4));
    // A redundant retransmission is absorbed without a new divergence.
    assert!(!q.confirm(0, inp(4)));
    // Even a contradicting one: confirmed records are immutable.
    assert!(!q.confirm(0, inp(7)));
    assert_eq!(q.get(0), inp(4));
}

#[test]
fn confirm_matching_prediction_is_silent() {
    let mut q = InputQueue::new(inp(0));
    q.record(3, inp(8), false);
    assert!(!q.confirm(3, inp(8)));
    assert_eq!(q.confirmed_frontier(), 0);
}

#[test]
fn predict_repeat_uses_last_confirmed_value() {
    let mut q = InputQueue::new(inp(0));
    assert!(!q.confirm(0, inp(8)));
    // Frame 0 is confirmed as 8; later frames are forecast by repeating it.
    assert_eq!(q.get(0), inp(8));
    assert_eq!(q.get(1), inp(8));
    assert_eq!(q.confirmed_frontier(), 1);
}

#[test]
fn confirm_beyond_the_run_fills_the_gap_with_predictions() {
    let mut q = InputQueue::new(inp(0));
    assert!(!q.confirm(0, inp(8)));
    // Frames 1 and 2 were never seen; confirming frame 3 predicts them.
    assert!(!q.confirm(3, inp(2)));
    assert_eq!(q.get(1), inp(8));
    assert_eq!(q.get(2), inp(8));
    assert_eq!(q.get(3), inp(2));
    // The frontier stops at the first predicted entry.
    assert_eq!(q.confirmed_frontier(), 1);
    // Filling the holes in moves it forward.
    assert!(!q.confirm(1, inp(8)));
    assert!(!q.confirm(2, inp(8)));
    assert_eq!(q.confirmed_frontier(), 4);
}

#[test]
fn prune_drops_old_entries_but_keeps_forecasting() {
    let mut q = InputQueue::new(inp(0));
    assert!(!q.confirm(0, inp(1)));
    assert!(!q.confirm(1, inp(2)));
    assert!(!q.confirm(2, inp(3)));
    q.prune(2);
    // The newest confirmation still drives predict-repeat.
    assert_eq!(q.get(2), inp(3));
    assert_eq!(q.get(9), inp(3));
    assert_eq!(q.confirmed_frontier(), 3);
}

#[test]
fn store_keeps_a_bounded_window_evicting_oldest() {
    let mut store = SnapshotStore::new(2);
    store.save(1, vec![0xa]);
    store.save(2, vec![0xb]);
    assert_eq!(store.len(), 2);
    store.save(3, vec![0xc]);
    assert_eq!(store.len(), 2);
    assert!(store.get(1).is_none());
    assert_eq!(store.get(2).unwrap(), &vec![0xb]);
    assert_eq!(store.get(3).unwrap(), &vec![0xc]);
}

#[test]
fn store_discard_after_drops_the_stale_future() {
    let mut store = SnapshotStore::new(8);
    store.save(0, vec![0]);
    store.save(1, vec![1]);
    store.save(2, vec![2]);
    store.save(3, vec![3]);
    store.discard_after(1);
    assert_eq!(store.len(), 2);
    assert_eq!(store.get(0).unwrap(), &vec![0]);
    assert_eq!(store.get(1).unwrap(), &vec![1]);
    assert!(store.get(2).is_none());
    assert!(store.get(3).is_none());
    // Replay then writes fresh snapshots over the discarded range.
    store.save(2, vec![9]);
    assert_eq!(store.get(2).unwrap(), &vec![9]);
}
