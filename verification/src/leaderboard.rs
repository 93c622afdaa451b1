//! Leaderboard snapshots and the rank-change reconciler.

use vstd::prelude::*;

verus! {

/// One leaderboard position: an entity identifier and the rank it holds.
/// Rank 1 is best; a lower rank is better.
#[derive(Clone, Copy, PartialEq, Eq, Structural, Debug)]
pub struct RankedEntry {
    pub entity_id: i64,
    pub rank: i64,
}

/// A point-in-time top-N snapshot: which entity holds which rank.
pub struct Snapshot {
    entries: Vec<RankedEntry>,
}

/// A rank-change announcement: `entity_id` now holds `rank`, overtaking
/// `overtaken_id`, the entity that held that rank in the previous snapshot.
/// `entered` distinguishes an entity newly arrived in the top N from one that
/// improved its rank within it.
#[derive(Clone, Copy, PartialEq, Eq, Structural, Debug)]
pub struct RankEvent {
    pub entity_id: i64,
    pub overtaken_id: i64,
    pub rank: i64,
    pub entered: bool,
}

/// The rank entity `e` holds in `es`, going by the first entry for `e`.
pub open spec fn rank_in(es: Seq<RankedEntry>, e: i64) -> Option<i64>
    decreases es.len(),
{
    if es.len() == 0 {
        Option::None
    } else if es[0].entity_id == e {
        Option::Some(es[0].rank)
    } else {
        rank_in(es.drop_first(), e)
    }
}

/// The entity holding rank `r` in `es`, going by the first entry for `r`.
pub open spec fn occupant_in(es: Seq<RankedEntry>, r: i64) -> Option<i64>
    decreases es.len(),
{
    if es.len() == 0 {
        Option::None
    } else if es[0].rank == r {
        Option::Some(es[0].entity_id)
    } else {
        occupant_in(es.drop_first(), r)
    }
}

/// The index of the first entry holding rank `r`.
pub open spec fn first_rank_index(es: Seq<RankedEntry>, r: i64) -> int
    decreases es.len(),
{
    if es.len() == 0 {
        0
    } else if es[0].rank == r {
        0
    } else {
        1 + first_rank_index(es.drop_first(), r)
    }
}

/// A found first match settles `rank_in`.
pub proof fn lemma_rank_in_found(es: Seq<RankedEntry>, e: i64, i: int)
    requires
        0 <= i < es.len(),
        es[i].entity_id == e,
        forall|j: int| 0 <= j < i ==> es[j].entity_id != e,
    ensures
        rank_in(es, e) == Option::Some(es[i].rank),
    decreases i,
{
    if i > 0 {
        assert(forall|j: int| 0 <= j < i - 1 ==> es.drop_first()[j] == es[j + 1]);
        lemma_rank_in_found(es.drop_first(), e, i - 1);
    }
}

/// `rank_in` is `None` exactly when no entry mentions the entity.
pub proof fn lemma_rank_in_none(es: Seq<RankedEntry>, e: i64)
    ensures
        rank_in(es, e) is None <==> forall|j: int| 0 <= j < es.len() ==> es[j].entity_id != e,
    decreases es.len(),
{
    if es.len() > 0 {
        lemma_rank_in_none(es.drop_first(), e);
        assert(forall|j: int| 0 <= j < es.drop_first().len() ==> es.drop_first()[j] == es[j + 1]);
        if es[0].entity_id != e && (forall|j: int|
            0 <= j < es.drop_first().len() ==> es.drop_first()[j].entity_id != e) {
            assert forall|j: int| 0 <= j < es.len() implies es[j].entity_id != e by {
                if j > 0 {
                    assert(es.drop_first()[j - 1].entity_id != e);
                }
            }
        }
    }
}

/// A found first match settles `occupant_in` and `first_rank_index`.
pub proof fn lemma_occupant_in_found(es: Seq<RankedEntry>, r: i64, i: int)
    requires
        0 <= i < es.len(),
        es[i].rank == r,
        forall|j: int| 0 <= j < i ==> es[j].rank != r,
    ensures
        occupant_in(es, r) == Option::Some(es[i].entity_id),
        first_rank_index(es, r) == i,
    decreases i,
{
    if i > 0 {
        assert(forall|j: int| 0 <= j < i - 1 ==> es.drop_first()[j] == es[j + 1]);
        lemma_occupant_in_found(es.drop_first(), r, i - 1);
    }
}

/// `occupant_in` is `None` exactly when no entry holds the rank.
pub proof fn lemma_occupant_in_none(es: Seq<RankedEntry>, r: i64)
    ensures
        occupant_in(es, r) is None <==> forall|j: int| 0 <= j < es.len() ==> es[j].rank != r,
    decreases es.len(),
{
    if es.len() > 0 {
        lemma_occupant_in_none(es.drop_first(), r);
        assert(forall|j: int| 0 <= j < es.drop_first().len() ==> es.drop_first()[j] == es[j + 1]);
        if es[0].rank != r && (forall|j: int|
            0 <= j < es.drop_first().len() ==> es.drop_first()[j].rank != r) {
            assert forall|j: int| 0 <= j < es.len() implies es[j].rank != r by {
                if j > 0 {
                    assert(es.drop_first()[j - 1].rank != r);
                }
            }
        }
    }
}

/// The rank-change event reported for one entry of the new snapshot, against
/// the previous snapshot. No event is emitted when the entry's rank had no
/// previous occupant, or when the entity did not improve its rank. The
/// overtaken party is identified by rank occupancy in the previous snapshot,
/// not by entity identity: when several entities move in one cycle, each event
/// names whichever entity previously held the mover's new rank, an accepted
/// approximation.
pub open spec fn rank_event_for(prev: Seq<RankedEntry>, en: RankedEntry) -> Option<RankEvent> {
    match occupant_in(prev, en.rank) {
        Option::None => Option::None,
        Option::Some(o) => match rank_in(prev, en.entity_id) {
            Option::None => Option::Some(
                RankEvent { entity_id: en.entity_id, overtaken_id: o, rank: en.rank, entered: true },
            ),
            Option::Some(pr) => if en.rank < pr {
                Option::Some(
                    RankEvent {
                        entity_id: en.entity_id,
                        overtaken_id: o,
                        rank: en.rank,
                        entered: false,
                    },
                )
            } else {
                Option::None
            },
        },
    }
}

/// The events of one leaderboard reconciliation: each entry of the new
/// snapshot is judged against the previous snapshot, in snapshot order.
/// Entities that dropped out of the top N generate nothing.
pub open spec fn diff_events(prev: Seq<RankedEntry>, current: Seq<RankedEntry>) -> Seq<RankEvent>
    decreases current.len(),
{
    if current.len() == 0 {
        Seq::empty()
    } else {
        match rank_event_for(prev, current[0]) {
            Option::None => diff_events(prev, current.drop_first()),
            Option::Some(ev) => seq![ev] + diff_events(prev, current.drop_first()),
        }
    }
}

/// Where a fetched row lands in a snapshot under construction. An entity that
/// is already placed is left where it is; a fresh rank is appended; a rank
/// already occupied goes to the lower entity identifier, the deterministic
/// tie-break that keeps the diff total when an upstream feed reports ties.
pub open spec fn admit_entry(es: Seq<RankedEntry>, en: RankedEntry) -> Seq<RankedEntry> {
    if rank_in(es, en.entity_id) is Some {
        es
    } else {
        match occupant_in(es, en.rank) {
            Option::None => es.push(en),
            Option::Some(o) => if en.entity_id < o {
                es.update(first_rank_index(es, en.rank), en)
            } else {
                es
            },
        }
    }
}

/// The snapshot built from fetched rows of (entity identifier, rank), row by
/// row.
pub open spec fn build_snapshot(rows: Seq<(i64, i64)>) -> Seq<RankedEntry>
    decreases rows.len(),
{
    if rows.len() == 0 {
        Seq::empty()
    } else {
        admit_entry(
            build_snapshot(rows.drop_last()),
            RankedEntry { entity_id: rows.last().0, rank: rows.last().1 },
        )
    }
}

/// Law: the first run announces nothing. Against an empty previous snapshot
/// no rank has a previous occupant, so whatever the new snapshot holds, the
/// diff is empty.
pub proof fn lemma_first_run_no_events(current: Seq<RankedEntry>)
    ensures
        diff_events(Seq::<RankedEntry>::empty(), current) == Seq::<RankEvent>::empty(),
    decreases current.len(),
{
    if current.len() > 0 {
        lemma_first_run_no_events(current.drop_first());
    }
}

impl Snapshot {
    /// The snapshot's entries, in snapshot order.
    pub closed spec fn view(&self) -> Seq<RankedEntry> {
        self.entries@
    }

    /// Each entity and each rank appears at most once.
    pub open spec fn wf(&self) -> bool {
        forall|i: int, j: int|
            0 <= i < j < self@.len() ==> self@[i].entity_id != self@[j].entity_id && self@[i].rank
                != self@[j].rank
    }

    /// The empty snapshot: the state before any leaderboard was persisted.
    pub fn new() -> (s: Snapshot)
        ensures
            s@ =~= Seq::<RankedEntry>::empty(),
            s.wf(),
    {
        Snapshot { entries: Vec::new() }
    }

    /// The rank entity `e` currently holds, if any.
    pub fn rank_of(&self, e: i64) -> (r: Option<i64>)
        ensures
            r == rank_in(self@, e),
    {
        let mut i: usize = 0;
        while i < self.entries.len()
            invariant
                i <= self.entries.len(),
                forall|j: int| 0 <= j < i ==> self.entries@[j].entity_id != e,
            decreases self.entries.len() - i,
        {
            if self.entries[i].entity_id == e {
                proof {
                    lemma_rank_in_found(self.entries@, e, i as int);
                }
                return Option::Some(self.entries[i].rank);
            }
            i = i + 1;
        }
        proof {
            lemma_rank_in_none(self.entries@, e);
        }
        Option::None
    }

    /// The entity currently holding rank `r`, if any.
    pub fn occupant_of(&self, r: i64) -> (o: Option<i64>)
        ensures
            o == occupant_in(self@, r),
    {
        let mut i: usize = 0;
        while i < self.entries.len()
            invariant
                i <= self.entries.len(),
                forall|j: int| 0 <= j < i ==> self.entries@[j].rank != r,
            decreases self.entries.len() - i,
        {
            if self.entries[i].rank == r {
                proof {
                    lemma_occupant_in_found(self.entries@, r, i as int);
                }
                return Option::Some(self.entries[i].entity_id);
            }
            i = i + 1;
        }
        proof {
            lemma_occupant_in_none(self.entries@, r);
        }
        Option::None
    }

    /// The index of the first entry holding rank `r`, if any.
    fn index_of_rank(&self, r: i64) -> (k: Option<usize>)
        ensures
            k matches Some(kk) ==> kk < self@.len() && self@[kk as int].rank == r && kk as int
                == first_rank_index(self@, r) && occupant_in(self@, r) == Some(
                self@[kk as int].entity_id,
            ),
            k is None ==> occupant_in(self@, r) is None,
    {
        let mut i: usize = 0;
        while i < self.entries.len()
            invariant
                i <= self.entries.len(),
                forall|j: int| 0 <= j < i ==> self.entries@[j].rank != r,
            decreases self.entries.len() - i,
        {
            if self.entries[i].rank == r {
                proof {
                    lemma_occupant_in_found(self.entries@, r, i as int);
                }
                return Option::Some(i);
            }
            i = i + 1;
        }
        proof {
            lemma_occupant_in_none(self.entries@, r);
        }
        Option::None
    }

    /// Build a snapshot from fetched rows of (entity identifier, rank), in
    /// row order, with the deterministic tie-break of `admit_entry`.
    pub fn from_entries(rows: &Vec<(i64, i64)>) -> (s: Snapshot)
        ensures
            s@ == build_snapshot(rows@),
            s.wf(),
    {
        let ghost all = rows@;
        let mut snap = Snapshot { entries: Vec::new() };
        let mut i: usize = 0;
        proof {
            assert(all.take(0) =~= Seq::<(i64, i64)>::empty());
        }
        while i < rows.len()
            invariant
                i <= all.len(),
                rows@ == all,
                snap.wf(),
                snap@ == build_snapshot(all.take(i as int)),
            decreases all.len() - i,
        {
            let row = rows[i];
            let en = RankedEntry { entity_id: row.0, rank: row.1 };
            let ghost before = snap@;
            proof {
                assert(all.take(i as int + 1).drop_last() =~= all.take(i as int));
                assert(all.take(i as int + 1).last() == all[i as int]);
            }
            match snap.rank_of(en.entity_id) {
                Option::Some(_) => {
                },
                Option::None => {
                    proof {
                        lemma_rank_in_none(before, en.entity_id);
                    }
                    match snap.index_of_rank(en.rank) {
                        Option::None => {
                            proof {
                                lemma_occupant_in_none(before, en.rank);
                            }
                            snap.entries.push(en);
                            proof {
                                assert forall|a: int, b: int|
                                    0 <= a < b < snap@.len() implies snap@[a].entity_id
                                    != snap@[b].entity_id && snap@[a].rank != snap@[b].rank by {
                                    if b == snap@.len() - 1 {
                                        assert(before[a].entity_id != en.entity_id);
                                        assert(before[a].rank != en.rank);
                                    }
                                }
                            }
                        },
                        Option::Some(k) => {
                            if en.entity_id < snap.entries[k].entity_id {
                                snap.entries.set(k, en);
                                proof {
                                    assert(snap@ == before.update(k as int, en));
                                    assert forall|a: int, b: int|
                                        0 <= a < b < snap@.len() implies snap@[a].entity_id
                                        != snap@[b].entity_id && snap@[a].rank
                                        != snap@[b].rank by {
                                        if a != k && b != k {
                                            assert(snap@[a] == before[a] && snap@[b] == before[b]);
                                        } else if a == k {
                                            assert(snap@[b] == before[b]);
                                            assert(before[b].entity_id != en.entity_id);
                                            assert(before[b].rank != before[k as int].rank);
                                        } else {
                                            assert(snap@[a] == before[a]);
                                            assert(before[a].entity_id != en.entity_id);
                                            assert(before[a].rank != before[k as int].rank);
                                        }
                                    }
                                }
                            }
                        },
                    }
                },
            }
            i = i + 1;
        }
        proof {
            assert(all.take(all.len() as int) =~= all);
        }
        snap
    }

    /// The snapshot as plain rows, for durable storage.
    pub fn to_rows(&self) -> (rows: Vec<(i64, i64)>)
        ensures
            rows@.len() == self@.len(),
            forall|i: int| 0 <= i < rows@.len() ==> rows@[i] == (self@[i].entity_id, self@[i].rank),
    {
        let mut rows: Vec<(i64, i64)> = Vec::new();
        let mut i: usize = 0;
        while i < self.entries.len()
            invariant
                i <= self.entries.len(),
                rows@.len() == i,
                forall|j: int|
                    0 <= j < i ==> rows@[j] == (self.entries@[j].entity_id, self.entries@[j].rank),
            decreases self.entries.len() - i,
        {
            rows.push((self.entries[i].entity_id, self.entries[i].rank));
            i = i + 1;
        }
        rows
    }

    /// Compute the rank-change events between the previous snapshot and the
    /// freshly fetched one.
    pub fn diff(prev: &Snapshot, current: &Snapshot) -> (events: Vec<RankEvent>)
        ensures
            events@ == diff_events(prev@, current@),
    {
        let ghost all = current@;
        let mut events: Vec<RankEvent> = Vec::new();
        let mut i: usize = 0;
        proof {
            assert(all.skip(0) =~= all);
            assert(Seq::<RankEvent>::empty() + diff_events(prev@, all) =~= diff_events(
                prev@,
                all,
            ));
        }
        while i < current.entries.len()
            invariant
                i <= all.len(),
                current.entries@ == all,
                diff_events(prev@, all) == events@ + diff_events(prev@, all.skip(i as int)),
            decreases all.len() - i,
        {
            let en = current.entries[i];
            let ghost sfx = all.skip(i as int);
            proof {
                assert(sfx[0] == all[i as int]);
                assert(sfx.drop_first() =~= all.skip(i as int + 1));
            }
            let ev_opt: Option<RankEvent> = match prev.occupant_of(en.rank) {
                Option::None => Option::None,
                Option::Some(o) => match prev.rank_of(en.entity_id) {
                    Option::None => Option::Some(
                        RankEvent {
                            entity_id: en.entity_id,
                            overtaken_id: o,
                            rank: en.rank,
                            entered: true,
                        },
                    ),
                    Option::Some(pr) => if en.rank < pr {
                        Option::Some(
                            RankEvent {
                                entity_id: en.entity_id,
                                overtaken_id: o,
                                rank: en.rank,
                                entered: false,
                            },
                        )
                    } else {
                        Option::None
                    },
                },
            };
            proof {
                assert(ev_opt == rank_event_for(prev@, all[i as int]));
            }
            match ev_opt {
                Option::None => {
                },
                Option::Some(ev) => {
                    proof {
                        assert(events@.push(ev) =~= events@ + seq![ev]);
                        assert(events@ + (seq![ev] + diff_events(prev@, sfx.drop_first())) =~= (
                        events@ + seq![ev]) + diff_events(prev@, sfx.drop_first()));
                    }
                    events.push(ev);
                },
            }
            i = i + 1;
        }
        proof {
            assert(all.skip(all.len() as int) =~= Seq::<RankedEntry>::empty());
        }
        events
    }
}

} // verus!
