use ctfd_announcer::Snapshot;

#[test]
fn unchanged_leaderboard_yields_no_events() {
    let prev = Snapshot::from_entries(&vec![(10, 1), (20, 2)]);
    let current = Snapshot::from_entries(&vec![(10, 1), (20, 2)]);
    let events = Snapshot::diff(&prev, &current);
    assert!(events.is_empty());
    // The replacement snapshot carries identical content.
    assert_eq!(current.to_rows(), vec![(10, 1), (20, 2)]);
}

#[test]
fn swap_at_the_top_yields_one_overtake() {
    let prev = Snapshot::from_entries(&vec![(10, 1), (20, 2)]);
    let current = Snapshot::from_entries(&vec![(20, 1), (10, 2)]);
    let events = Snapshot::diff(&prev, &current);
    assert_eq!(events.len(), 1);
    assert_eq!(events[0].entity_id, 20);
    assert_eq!(events[0].overtaken_id, 10);
    assert_eq!(events[0].rank, 1);
    assert!(!events[0].entered);
}

#[test]
fn new_entrant_overtakes_previous_occupant() {
    let prev = Snapshot::from_entries(&vec![(10, 1), (20, 2)]);
    let current = Snapshot::from_entries(&vec![(30, 2), (10, 1)]);
    let events = Snapshot::diff(&prev, &current);
    assert_eq!(events.len(), 1);
    assert_eq!(events[0].entity_id, 30);
    assert_eq!(events[0].overtaken_id, 20);
    assert_eq!(events[0].rank, 2);
    assert!(events[0].entered);
}

#[test]
fn first_run_yields_no_events() {
    let prev = Snapshot::new();
    let current = Snapshot::from_entries(&vec![(10, 1), (20, 2)]);
    let events = Snapshot::diff(&prev, &current);
    assert!(events.is_empty());
    assert_eq!(current.to_rows(), vec![(10, 1), (20, 2)]);
}

#[test]
fn dropping_out_is_not_announced() {
    let prev = Snapshot::from_entries(&vec![(10, 1), (20, 2), (30, 3)]);
    // 30 left the board; nobody moved up into its old rank.
    let current = Snapshot::from_entries(&vec![(10, 1), (20, 2)]);
    let events = Snapshot::diff(&prev, &current);
    assert!(events.is_empty());
}

#[test]
fn tie_break_prefers_lower_entity_id() {
    // Two entities reported at the same rank: the lower identifier wins,
    // whatever order the feed used.
    let snap = Snapshot::from_entries(&vec![(20, 1), (10, 1)]);
    assert_eq!(snap.to_rows(), vec![(10, 1)]);
    let snap = Snapshot::from_entries(&vec![(10, 1), (20, 1)]);
    assert_eq!(snap.to_rows(), vec![(10, 1)]);
}

#[test]
fn repeated_entity_keeps_first_rank() {
    let snap = Snapshot::from_entries(&vec![(10, 1), (10, 2)]);
    assert_eq!(snap.to_rows(), vec![(10, 1)]);
}

#[test]
fn empty_snapshots_diff_to_nothing() {
    let events = Snapshot::diff(&Snapshot::new(), &Snapshot::new());
    assert!(events.is_empty());
    let snap = Snapshot::from_entries(&Vec::new());
    assert!(snap.to_rows().is_empty());
}

#[test]
fn lookups_follow_the_snapshot() {
    let snap = Snapshot::from_entries(&vec![(10, 1), (20, 2)]);
    assert_eq!(snap.rank_of(10), Some(1));
    assert_eq!(snap.rank_of(20), Some(2));
    assert_eq!(snap.rank_of(30), None);
    assert_eq!(snap.occupant_of(1), Some(10));
    assert_eq!(snap.occupant_of(2), Some(20));
    assert_eq!(snap.occupant_of(3), None);
}

#[test]
fn batch_move_names_previous_occupants() {
    // Everyone shifts up one rank as 10 drops out: each mover overtakes the
    // previous occupant of its new rank, an accepted approximation.
    let prev = Snapshot::from_entries(&vec![(10, 1), (20, 2), (30, 3)]);
    let current = Snapshot::from_entries(&vec![(20, 1), (30, 2)]);
    let events = Snapshot::diff(&prev, &current);
    assert_eq!(events.len(), 2);
    assert_eq!(events[0].entity_id, 20);
    assert_eq!(events[0].overtaken_id, 10);
    assert_eq!(events[0].rank, 1);
    assert!(!events[0].entered);
    assert_eq!(events[1].entity_id, 30);
    assert_eq!(events[1].overtaken_id, 20);
    assert_eq!(events[1].rank, 2);
    assert!(!events[1].entered);
}
