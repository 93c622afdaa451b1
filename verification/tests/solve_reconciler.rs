use ctfd_announcer::ReportedSolve;
use ctfd_announcer::SolveCycle;
use ctfd_announcer::SolveStore;

fn reported(c: i64, s: i64) -> ReportedSolve {
    ReportedSolve {
        challenge_id: c,
        challenge_name: format!("chal-{}", c),
        solver_id: s,
        solver_name: format!("solver-{}", s),
    }
}

#[test]
fn replay_emits_zero_events() {
    let rows: Vec<(i64, i64)> = vec![(1, 100), (1, 101), (2, 100)];
    let mut store = SolveStore::from_rows(&rows);
    let input = vec![reported(1, 100), reported(1, 101), reported(2, 100)];
    let events = store.reconcile(&input, false);
    assert!(events.is_empty());
    assert_eq!(store.len(), 3);
    let events_fbo = store.reconcile(&input, true);
    assert!(events_fbo.is_empty());
    assert_eq!(store.len(), 3);
}

#[test]
fn first_blood_only_keeps_single_record() {
    let mut store = SolveStore::new();
    let input = vec![reported(7, 1), reported(7, 2), reported(7, 3)];
    let events = store.reconcile(&input, true);
    assert_eq!(events.len(), 1);
    assert_eq!(store.len(), 1);
    let later = vec![reported(7, 1), reported(7, 2), reported(7, 3), reported(7, 4)];
    let more = store.reconcile(&later, true);
    assert!(more.is_empty());
    assert_eq!(store.len(), 1);
}

#[test]
fn three_solvers_one_first_blood() {
    let input = vec![reported(5, 11), reported(5, 12), reported(5, 13)];

    let mut store = SolveStore::new();
    let events = store.reconcile(&input, true);
    assert_eq!(events.len(), 1);
    assert_eq!(events[0].solver_id, 11);
    assert!(events[0].first_blood);

    let mut store = SolveStore::new();
    let events = store.reconcile(&input, false);
    assert_eq!(events.len(), 3);
    assert_eq!(events[0].solver_id, 11);
    assert!(events[0].first_blood);
    assert_eq!(events[1].solver_id, 12);
    assert!(!events[1].first_blood);
    assert_eq!(events[2].solver_id, 13);
    assert!(!events[2].first_blood);
    assert_eq!(events[0].challenge_name, "chal-5");
    assert_eq!(events[0].solver_name, "solver-11");
}

#[test]
fn restart_with_persisted_store_emits_nothing() {
    let input = vec![reported(1, 100), reported(2, 200), reported(2, 201)];
    let mut store = SolveStore::new();
    let events = store.reconcile(&input, false);
    assert_eq!(events.len(), 3);

    // Persist exactly what was announced, then "restart" by reloading.
    let persisted: Vec<(i64, i64)> =
        events.iter().map(|e| (e.challenge_id, e.solver_id)).collect();
    let mut reloaded = SolveStore::from_rows(&persisted);
    let again = reloaded.reconcile(&input, false);
    assert!(again.is_empty());
}

#[test]
fn storage_failure_suppresses_notification() {
    let store = SolveStore::new();
    let input = vec![reported(3, 30)];
    let mut cycle = SolveCycle::new(store, input, true);

    let candidate = cycle.next();
    assert!(candidate.is_some());
    // The durable write failed: nothing may be notified, nothing recorded.
    let notify = cycle.settle(false);
    assert!(notify.is_none());
    assert!(cycle.done());
    let store = cycle.into_store();
    assert_eq!(store.len(), 0);

    // The next cycle sees the solve as still unannounced.
    let input = vec![reported(3, 30)];
    let mut cycle = SolveCycle::new(store, input, true);
    assert!(cycle.next().is_some());
}

#[test]
fn persisted_record_releases_notification() {
    let store = SolveStore::new();
    let input = vec![reported(3, 30), reported(3, 31)];
    let mut cycle = SolveCycle::new(store, input, false);

    let candidate = cycle.next().expect("a solve to announce");
    assert_eq!(candidate.challenge_id, 3);
    assert_eq!(candidate.solver_id, 30);
    assert!(candidate.first_blood);
    let notify = cycle.settle(true).expect("released notification");
    assert_eq!(notify.solver_id, 30);
    assert!(notify.first_blood);

    let second = cycle.next().expect("the second solver");
    assert_eq!(second.solver_id, 31);
    assert!(!second.first_blood);
    let notify = cycle.settle(true).expect("released notification");
    assert!(!notify.first_blood);

    assert!(cycle.next().is_none());
    assert!(cycle.done());
    assert_eq!(cycle.into_store().len(), 2);
}

#[test]
fn evaluate_decides_per_policy() {
    let rows: Vec<(i64, i64)> = vec![(1, 100)];
    let store = SolveStore::from_rows(&rows);
    // Already announced: never again.
    assert_eq!(store.evaluate(1, 100, false), None);
    assert_eq!(store.evaluate(1, 100, true), None);
    // New solver of an announced challenge: only without first-blood-only.
    assert_eq!(store.evaluate(1, 101, true), None);
    assert_eq!(store.evaluate(1, 101, false), Some(false));
    // First solver of a fresh challenge: first blood either way.
    assert_eq!(store.evaluate(2, 100, true), Some(true));
    assert_eq!(store.evaluate(2, 100, false), Some(true));
}

#[test]
fn mark_all_skips_existing_solves() {
    let input = vec![reported(1, 100), reported(2, 200)];
    let mut store = SolveStore::new();
    store.mark_all(&input);
    assert!(store.has_pair(1, 100));
    assert!(store.has_pair(2, 200));
    let events = store.reconcile(&input, false);
    assert!(events.is_empty());
}

#[test]
fn empty_input_emits_nothing() {
    let mut store = SolveStore::new();
    let events = store.reconcile(&Vec::new(), false);
    assert!(events.is_empty());
    assert_eq!(store.len(), 0);

    let mut cycle = SolveCycle::new(store, Vec::new(), true);
    assert!(cycle.next().is_none());
    assert!(cycle.done());
    assert!(cycle.settle(true).is_none());
    assert_eq!(cycle.into_store().len(), 0);
}

#[test]
fn from_rows_collapses_duplicates() {
    let rows: Vec<(i64, i64)> = vec![(1, 2), (1, 2), (1, 3)];
    let store = SolveStore::from_rows(&rows);
    assert_eq!(store.len(), 2);
    assert!(store.has_pair(1, 2));
    assert!(store.has_pair(1, 3));
    assert!(!store.has_pair(2, 2));
    assert!(store.has_challenge(1));
    assert!(!store.has_challenge(2));
}
