//! Durable-set model of announced solves and the solve reconciler.

use vstd::prelude::*;

verus! {

/// One persisted announcement: a (challenge, solver) pair, identified by the
/// platform-assigned integer identifiers alone. Display names are not part of
/// a solve's identity.
#[derive(Clone, Copy, PartialEq, Eq, Structural, Debug)]
pub struct AnnouncedSolve {
    pub challenge_id: i64,
    pub solver_id: i64,
}

/// In-memory model of the durable set of already-announced (challenge, solver)
/// pairs. The engine owns it exclusively; the surrounding process mirrors every
/// accepted `record` into durable storage.
pub struct SolveStore {
    pairs: Vec<AnnouncedSolve>,
}

/// Does the sequence contain the pair (challenge `c`, solver `s`)?
pub open spec fn seq_has_pair(ps: Seq<AnnouncedSolve>, c: int, s: int) -> bool {
    exists|i: int|
        0 <= i < ps.len() && ps[i].challenge_id == c && ps[i].solver_id == s
}

/// Does the sequence contain any pair for challenge `c`?
pub open spec fn seq_has_challenge(ps: Seq<AnnouncedSolve>, c: int) -> bool {
    exists|i: int| 0 <= i < ps.len() && ps[i].challenge_id == c
}

/// The sequence records no pair twice.
pub open spec fn seq_dup_free(ps: Seq<AnnouncedSolve>) -> bool {
    forall|i: int, j: int| 0 <= i < j < ps.len() ==> ps[i] != ps[j]
}

/// Appending a pair adds exactly that pair to the recorded set.
pub proof fn lemma_has_pair_push(ps: Seq<AnnouncedSolve>, p: AnnouncedSolve, c: int, s: int)
    ensures
        seq_has_pair(ps.push(p), c, s) <==> (seq_has_pair(ps, c, s) || (p.challenge_id == c
            && p.solver_id == s)),
{
    if seq_has_pair(ps, c, s) {
        let i = choose|i: int|
            0 <= i < ps.len() && ps[i].challenge_id == c && ps[i].solver_id == s;
        assert(ps.push(p)[i].challenge_id == c && ps.push(p)[i].solver_id == s);
    }
    if p.challenge_id == c && p.solver_id == s {
        assert(ps.push(p)[ps.len() as int].challenge_id == c);
    }
    if seq_has_pair(ps.push(p), c, s) {
        let i = choose|i: int|
            0 <= i < ps.push(p).len() && ps.push(p)[i].challenge_id == c
                && ps.push(p)[i].solver_id == s;
        if i < ps.len() {
            assert(ps[i].challenge_id == c && ps[i].solver_id == s);
        }
    }
}

/// Appending a pair announces exactly that pair's challenge in addition.
pub proof fn lemma_has_challenge_push(ps: Seq<AnnouncedSolve>, p: AnnouncedSolve, c: int)
    ensures
        seq_has_challenge(ps.push(p), c) <==> (seq_has_challenge(ps, c) || p.challenge_id == c),
{
    if seq_has_challenge(ps, c) {
        let i = choose|i: int| 0 <= i < ps.len() && ps[i].challenge_id == c;
        assert(ps.push(p)[i].challenge_id == c);
    }
    if p.challenge_id == c {
        assert(ps.push(p)[ps.len() as int].challenge_id == c);
    }
    if seq_has_challenge(ps.push(p), c) {
        let i = choose|i: int| 0 <= i < ps.push(p).len() && ps.push(p)[i].challenge_id == c;
        if i < ps.len() {
            assert(ps[i].challenge_id == c);
        }
    }
}

impl SolveStore {
    /// The set of announced pairs, as the sequence of records in the order
    /// they were recorded.
    pub closed spec fn view(&self) -> Seq<AnnouncedSolve> {
        self.pairs@
    }

    /// No pair is recorded twice: the sequence is duplicate-free.
    pub open spec fn wf(&self) -> bool {
        seq_dup_free(self@)
    }

    /// The pair (challenge `c`, solver `s`) has been announced.
    pub open spec fn contains_pair(&self, c: int, s: int) -> bool {
        seq_has_pair(self@, c, s)
    }

    /// Some solver of challenge `c` has been announced.
    pub open spec fn challenge_announced(&self, c: int) -> bool {
        seq_has_challenge(self@, c)
    }

    /// An empty store: nothing announced yet.
    pub fn new() -> (st: SolveStore)
        ensures
            st@ =~= Seq::<AnnouncedSolve>::empty(),
            st.wf(),
    {
        SolveStore { pairs: Vec::new() }
    }

    /// Whether the pair (challenge `c`, solver `s`) is already announced.
    pub fn has_pair(&self, c: i64, s: i64) -> (r: bool)
        ensures
            r == self.contains_pair(c as int, s as int),
    {
        let mut i: usize = 0;
        while i < self.pairs.len()
            invariant
                i <= self.pairs.len(),
                forall|k: int|
                    0 <= k < i ==> !(self.pairs@[k].challenge_id == c
                        && self.pairs@[k].solver_id == s),
            decreases self.pairs.len() - i,
        {
            if self.pairs[i].challenge_id == c && self.pairs[i].solver_id == s {
                return true;
            }
            i = i + 1;
        }
        false
    }

    /// Whether any solver of challenge `c` is already announced.
    pub fn has_challenge(&self, c: i64) -> (r: bool)
        ensures
            r == self.challenge_announced(c as int),
    {
        let mut i: usize = 0;
        while i < self.pairs.len()
            invariant
                i <= self.pairs.len(),
                forall|k: int| 0 <= k < i ==> self.pairs@[k].challenge_id != c,
            decreases self.pairs.len() - i,
        {
            if self.pairs[i].challenge_id == c {
                return true;
            }
            i = i + 1;
        }
        false
    }

    /// Idempotently add the pair (challenge `c`, solver `s`): a pair already
    /// present is left alone, so a replay never grows the store.
    pub fn record(&mut self, c: i64, s: i64)
        requires
            old(self).wf(),
        ensures
            final(self).wf(),
            old(self).contains_pair(c as int, s as int) ==> final(self)@ == old(self)@,
            !old(self).contains_pair(c as int, s as int) ==> final(self)@ == old(self)@.push(
                AnnouncedSolve { challenge_id: c, solver_id: s },
            ),
    {
        if !self.has_pair(c, s) {
            self.pairs.push(AnnouncedSolve { challenge_id: c, solver_id: s });
        }
    }

    /// Number of announced pairs.
    pub fn len(&self) -> (n: usize)
        ensures
            n == self@.len(),
    {
        self.pairs.len()
    }
}

/// One solve reported by the platform in the current cycle, in the flattened
/// challenge-major order (all solvers of one challenge before the next
/// challenge, solvers in chronological order, earliest first).
pub struct ReportedSolve {
    pub challenge_id: i64,
    pub challenge_name: String,
    pub solver_id: i64,
    pub solver_name: String,
}

/// A solve announcement the engine has decided to emit.
pub struct SolveEvent {
    pub challenge_id: i64,
    pub challenge_name: String,
    pub solver_id: i64,
    pub solver_name: String,
    /// True when this is the earliest announced solve of the challenge, which
    /// gets the special notification text.
    pub first_blood: bool,
}

/// The identity of a reported solve.
pub open spec fn pair_of(r: ReportedSolve) -> AnnouncedSolve {
    AnnouncedSolve { challenge_id: r.challenge_id, solver_id: r.solver_id }
}

/// The event announcing reported solve `r`, with first-blood flag `fb`.
pub open spec fn event_of(r: ReportedSolve, fb: bool) -> SolveEvent {
    SolveEvent {
        challenge_id: r.challenge_id,
        challenge_name: r.challenge_name,
        solver_id: r.solver_id,
        solver_name: r.solver_name,
        first_blood: fb,
    }
}

/// The announcement decision for one reported solve against the announced set
/// `ps`: `None` means do not announce; `Some(fb)` means announce, with `fb`
/// marking a first blood. A pair already announced is never re-announced; when
/// `first_blood_only` is set, a challenge with any announced solver gets no
/// further announcements at all.
pub open spec fn decision(
    ps: Seq<AnnouncedSolve>,
    c: int,
    s: int,
    first_blood_only: bool,
) -> Option<bool> {
    if seq_has_pair(ps, c, s) {
        None
    } else if first_blood_only && seq_has_challenge(ps, c) {
        None
    } else {
        Some(!seq_has_challenge(ps, c))
    }
}

/// The events emitted by one full reconciliation pass over `rs`, starting from
/// announced set `ps`: each announced solve is added to the set before the
/// next reported solve is considered.
pub open spec fn run_events(
    rs: Seq<ReportedSolve>,
    ps: Seq<AnnouncedSolve>,
    first_blood_only: bool,
) -> Seq<SolveEvent>
    decreases rs.len(),
{
    if rs.len() == 0 {
        Seq::empty()
    } else {
        match decision(ps, rs[0].challenge_id as int, rs[0].solver_id as int, first_blood_only) {
            Option::None => run_events(rs.drop_first(), ps, first_blood_only),
            Option::Some(fb) => seq![event_of(rs[0], fb)] + run_events(
                rs.drop_first(),
                ps.push(pair_of(rs[0])),
                first_blood_only,
            ),
        }
    }
}

/// The announced set after one full reconciliation pass over `rs`, starting
/// from announced set `ps`.
pub open spec fn run_store(
    rs: Seq<ReportedSolve>,
    ps: Seq<AnnouncedSolve>,
    first_blood_only: bool,
) -> Seq<AnnouncedSolve>
    decreases rs.len(),
{
    if rs.len() == 0 {
        ps
    } else {
        match decision(ps, rs[0].challenge_id as int, rs[0].solver_id as int, first_blood_only) {
            Option::None => run_store(rs.drop_first(), ps, first_blood_only),
            Option::Some(fb) => run_store(
                rs.drop_first(),
                ps.push(pair_of(rs[0])),
                first_blood_only,
            ),
        }
    }
}

impl SolveStore {
    /// The announcement decision for one reported solve against this store.
    pub fn evaluate(&self, c: i64, s: i64, first_blood_only: bool) -> (d: Option<bool>)
        ensures
            d == decision(self@, c as int, s as int, first_blood_only),
    {
        if self.has_pair(c, s) {
            Option::None
        } else if first_blood_only && self.has_challenge(c) {
            Option::None
        } else {
            Option::Some(!self.has_challenge(c))
        }
    }

    /// One full reconciliation pass, on the path where every record persists:
    /// decide each reported solve in order, record each announced one before
    /// looking at the next, and return the events in the order they must be
    /// notified.
    pub fn reconcile(&mut self, reported: &Vec<ReportedSolve>, first_blood_only: bool) -> (events:
        Vec<SolveEvent>)
        requires
            old(self).wf(),
        ensures
            final(self).wf(),
            events@ == run_events(reported@, old(self)@, first_blood_only),
            final(self)@ == run_store(reported@, old(self)@, first_blood_only),
    {
        let ghost all = reported@;
        let ghost ps0 = self@;
        let mut events: Vec<SolveEvent> = Vec::new();
        let mut i: usize = 0;
        proof {
            assert(all.skip(0) =~= all);
            assert(Seq::<SolveEvent>::empty() + run_events(all, ps0, first_blood_only)
                =~= run_events(all, ps0, first_blood_only));
        }
        while i < reported.len()
            invariant
                i <= all.len(),
                reported@ == all,
                self.wf(),
                run_events(all, ps0, first_blood_only) == events@ + run_events(
                    all.skip(i as int),
                    self@,
                    first_blood_only,
                ),
                run_store(all, ps0, first_blood_only) == run_store(
                    all.skip(i as int),
                    self@,
                    first_blood_only,
                ),
            decreases all.len() - i,
        {
            let r = &reported[i];
            let ghost sfx = all.skip(i as int);
            proof {
                assert(sfx[0] == all[i as int]);
                assert(sfx.drop_first() =~= all.skip(i as int + 1));
            }
            match self.evaluate(r.challenge_id, r.solver_id, first_blood_only) {
                Option::None => {
                },
                Option::Some(fb) => {
                    let ev = SolveEvent {
                        challenge_id: r.challenge_id,
                        challenge_name: r.challenge_name.clone(),
                        solver_id: r.solver_id,
                        solver_name: r.solver_name.clone(),
                        first_blood: fb,
                    };
                    proof {
                        assert(ev == event_of(all[i as int], fb));
                        assert(events@.push(ev) =~= events@ + seq![ev]);
                    }
                    let ghost ps_before = self@;
                    self.record(r.challenge_id, r.solver_id);
                    proof {
                        assert(self@ == ps_before.push(pair_of(all[i as int])));
                        assert(events@ + (seq![ev] + run_events(
                            sfx.drop_first(),
                            self@,
                            first_blood_only,
                        )) =~= (events@ + seq![ev]) + run_events(
                            sfx.drop_first(),
                            self@,
                            first_blood_only,
                        ));
                    }
                    events.push(ev);
                },
            }
            i = i + 1;
        }
        proof {
            assert(all.skip(all.len() as int) =~= Seq::<ReportedSolve>::empty());
        }
        events
    }
}

/// Law: reconciliation is idempotent. Replaying reported solves whose pairs
/// are all already announced emits no event and leaves the announced set
/// unchanged.
pub proof fn lemma_replay_emits_nothing(
    rs: Seq<ReportedSolve>,
    ps: Seq<AnnouncedSolve>,
    first_blood_only: bool,
)
    requires
        forall|k: int|
            0 <= k < rs.len() ==> seq_has_pair(
                ps,
                rs[k].challenge_id as int,
                rs[k].solver_id as int,
            ),
    ensures
        run_events(rs, ps, first_blood_only) == Seq::<SolveEvent>::empty(),
        run_store(rs, ps, first_blood_only) == ps,
    decreases rs.len(),
{
    if rs.len() > 0 {
        assert(seq_has_pair(ps, rs[0].challenge_id as int, rs[0].solver_id as int));
        assert(forall|k: int|
            0 <= k < rs.drop_first().len() ==> rs.drop_first()[k] == rs[k + 1]);
        lemma_replay_emits_nothing(rs.drop_first(), ps, first_blood_only);
    }
}

/// Law: restart safety. A store rebuilt from persisted rows that cover every
/// reported pair — the state after a restart with unchanged upstream data —
/// yields an event-free reconciliation pass.
pub proof fn lemma_restart_emits_nothing(
    rs: Seq<ReportedSolve>,
    rows: Seq<(i64, i64)>,
    st: SolveStore,
    first_blood_only: bool,
)
    requires
        forall|c: int, s: int| st.contains_pair(c, s) <==> rows_contain(rows, c, s),
        forall|k: int|
            0 <= k < rs.len() ==> rows_contain(
                rows,
                rs[k].challenge_id as int,
                rs[k].solver_id as int,
            ),
    ensures
        run_events(rs, st@, first_blood_only) == Seq::<SolveEvent>::empty(),
        run_store(rs, st@, first_blood_only) == st@,
{
    assert forall|k: int|
        0 <= k < rs.len() implies seq_has_pair(
        st@,
        rs[k].challenge_id as int,
        rs[k].solver_id as int,
    ) by {
        assert(rows_contain(rows, rs[k].challenge_id as int, rs[k].solver_id as int));
        assert(st.contains_pair(rs[k].challenge_id as int, rs[k].solver_id as int));
    }
    lemma_replay_emits_nothing(rs, st@, first_blood_only);
}

/// At most one recorded pair concerns challenge `c`.
pub open spec fn at_most_one_for_challenge(ps: Seq<AnnouncedSolve>, c: int) -> bool {
    forall|i: int, j: int|
        0 <= i < ps.len() && 0 <= j < ps.len() && ps[i].challenge_id == c
            && ps[j].challenge_id == c ==> ps[i] == ps[j]
}

/// Law: with `announce_first_blood_only` set, a challenge that has at most one
/// announced solver keeps at most one announced solver through any
/// reconciliation pass — so a store that only ever saw first-blood passes
/// never holds two records for one challenge.
pub proof fn lemma_first_blood_only_single_record(
    rs: Seq<ReportedSolve>,
    ps: Seq<AnnouncedSolve>,
    c: int,
)
    requires
        at_most_one_for_challenge(ps, c),
    ensures
        at_most_one_for_challenge(run_store(rs, ps, true), c),
    decreases rs.len(),
{
    if rs.len() > 0 {
        let c0 = rs[0].challenge_id as int;
        let s0 = rs[0].solver_id as int;
        match decision(ps, c0, s0, true) {
            Option::None => {
                lemma_first_blood_only_single_record(rs.drop_first(), ps, c);
            },
            Option::Some(fb) => {
                let ps2 = ps.push(pair_of(rs[0]));
                assert(!seq_has_challenge(ps, c0));
                assert(at_most_one_for_challenge(ps2, c)) by {
                    assert forall|i: int, j: int|
                        0 <= i < ps2.len() && 0 <= j < ps2.len() && ps2[i].challenge_id == c
                            && ps2[j].challenge_id == c implies ps2[i] == ps2[j] by {
                        if c == c0 {
                            if i < ps.len() {
                                assert(ps[i].challenge_id == c0);
                                assert(seq_has_challenge(ps, c0));
                            }
                            if j < ps.len() {
                                assert(ps[j].challenge_id == c0);
                                assert(seq_has_challenge(ps, c0));
                            }
                        } else {
                            assert(i < ps.len() && j < ps.len());
                        }
                    }
                }
                lemma_first_blood_only_single_record(rs.drop_first(), ps2, c);
            },
        }
    }
}

/// Law: three distinct solvers of one challenge, reported in order against an
/// empty announced set, produce exactly one first-blood event (for the
/// earliest solver) when only first bloods are announced, and three events of
/// which only the first is a first blood otherwise.
pub proof fn lemma_three_solvers(r1: ReportedSolve, r2: ReportedSolve, r3: ReportedSolve)
    requires
        r1.challenge_id == r2.challenge_id,
        r2.challenge_id == r3.challenge_id,
        r1.solver_id != r2.solver_id,
        r1.solver_id != r3.solver_id,
        r2.solver_id != r3.solver_id,
    ensures
        run_events(seq![r1, r2, r3], Seq::<AnnouncedSolve>::empty(), true) == seq![
            event_of(r1, true),
        ],
        run_events(seq![r1, r2, r3], Seq::<AnnouncedSolve>::empty(), false) == seq![
            event_of(r1, true),
            event_of(r2, false),
            event_of(r3, false),
        ],
{
    let c = r1.challenge_id as int;
    let e0 = Seq::<AnnouncedSolve>::empty();
    let rs = seq![r1, r2, r3];
    assert(rs.drop_first() =~= seq![r2, r3]);
    assert(seq![r2, r3].drop_first() =~= seq![r3]);
    assert(seq![r3].drop_first() =~= Seq::<ReportedSolve>::empty());
    assert(decision(e0, c, r1.solver_id as int, true) == Option::Some(true));
    assert(decision(e0, c, r1.solver_id as int, false) == Option::Some(true));
    let p1 = ps_one(r1);
    assert(e0.push(pair_of(r1)) == p1);
    lemma_has_pair_push(e0, pair_of(r1), c, r2.solver_id as int);
    lemma_has_pair_push(e0, pair_of(r1), c, r3.solver_id as int);
    lemma_has_challenge_push(e0, pair_of(r1), c);
    assert(seq_has_challenge(p1, c));
    assert(!seq_has_pair(p1, c, r2.solver_id as int));
    assert(!seq_has_pair(p1, c, r3.solver_id as int));
    assert(rs[0] == r1 && seq![r2, r3][0] == r2 && seq![r3][0] == r3);
    // With only first bloods announced, the second and third solvers are skipped.
    assert(decision(p1, c, r2.solver_id as int, true) == Option::None::<bool>);
    assert(decision(p1, c, r3.solver_id as int, true) == Option::None::<bool>);
    assert(run_events(Seq::<ReportedSolve>::empty(), p1, true) =~= Seq::<SolveEvent>::empty());
    assert(run_events(seq![r3], p1, true) =~= Seq::<SolveEvent>::empty());
    assert(run_events(seq![r2, r3], p1, true) =~= Seq::<SolveEvent>::empty());
    assert(run_events(seq![r1, r2, r3], e0, true) =~= seq![event_of(r1, true)] + Seq::<
        SolveEvent,
    >::empty());
    assert(run_events(seq![r1, r2, r3], e0, true) =~= seq![event_of(r1, true)]);
    // Otherwise they are announced as ordinary solves.
    assert(decision(p1, c, r2.solver_id as int, false) == Option::Some(false));
    let p2 = p1.push(pair_of(r2));
    lemma_has_pair_push(p1, pair_of(r2), c, r3.solver_id as int);
    lemma_has_challenge_push(p1, pair_of(r2), c);
    assert(decision(p2, c, r3.solver_id as int, false) == Option::Some(false));
    let p3 = p2.push(pair_of(r3));
    assert(run_events(Seq::<ReportedSolve>::empty(), p3, false) =~= Seq::<SolveEvent>::empty());
    assert(run_events(seq![r3], p2, false) =~= seq![event_of(r3, false)] + Seq::<
        SolveEvent,
    >::empty());
    assert(run_events(seq![r2, r3], p1, false) =~= seq![event_of(r2, false)] + run_events(
        seq![r3],
        p2,
        false,
    ));
    assert(run_events(seq![r1, r2, r3], e0, false) =~= seq![event_of(r1, true)] + run_events(
        seq![r2, r3],
        p1,
        false,
    ));
    assert(run_events(seq![r1, r2, r3], e0, false) =~= seq![
        event_of(r1, true),
        event_of(r2, false),
        event_of(r3, false),
    ]);
}

/// The announced set holding exactly the one pair of reported solve `r`.
pub open spec fn ps_one(r: ReportedSolve) -> Seq<AnnouncedSolve> {
    Seq::<AnnouncedSolve>::empty().push(pair_of(r))
}

/// Does the row sequence contain the pair (challenge `c`, solver `s`)?
pub open spec fn rows_contain(rows: Seq<(i64, i64)>, c: int, s: int) -> bool {
    exists|k: int| 0 <= k < rows.len() && rows[k].0 == c && rows[k].1 == s
}

/// Appending a row adds exactly that pair to the set a row sequence holds.
pub proof fn lemma_rows_contain_push(rows: Seq<(i64, i64)>, row: (i64, i64), c: int, s: int)
    ensures
        rows_contain(rows.push(row), c, s) <==> (rows_contain(rows, c, s) || (row.0 == c && row.1
            == s)),
{
    if rows_contain(rows, c, s) {
        let k = choose|k: int| 0 <= k < rows.len() && rows[k].0 == c && rows[k].1 == s;
        assert(rows.push(row)[k].0 == c && rows.push(row)[k].1 == s);
    }
    if row.0 == c && row.1 == s {
        assert(rows.push(row)[rows.len() as int].0 == c);
    }
    if rows_contain(rows.push(row), c, s) {
        let k = choose|k: int|
            0 <= k < rows.push(row).len() && rows.push(row)[k].0 == c && rows.push(row)[k].1 == s;
        if k < rows.len() {
            assert(rows[k].0 == c && rows[k].1 == s);
        }
    }
}

impl SolveStore {
    /// Rebuild the announced set from the persisted rows, as read back after a
    /// process restart. Duplicate rows collapse to one record.
    pub fn from_rows(rows: &Vec<(i64, i64)>) -> (st: SolveStore)
        ensures
            st.wf(),
            forall|c: int, s: int| st.contains_pair(c, s) <==> rows_contain(rows@, c, s),
    {
        let ghost all = rows@;
        let mut st = SolveStore::new();
        let mut i: usize = 0;
        proof {
            assert(all.take(0) =~= Seq::<(i64, i64)>::empty());
        }
        while i < rows.len()
            invariant
                i <= all.len(),
                rows@ == all,
                st.wf(),
                forall|c: int, s: int|
                    seq_has_pair(st@, c, s) <==> rows_contain(all.take(i as int), c, s),
            decreases all.len() - i,
        {
            let row = rows[i];
            let c = row.0;
            let s = row.1;
            let ghost before = st@;
            st.record(c, s);
            proof {
                assert(row == all[i as int]);
                assert(all.take(i as int + 1) =~= all.take(i as int).push(all[i as int]));
                assert forall|cc: int, ss: int|
                    seq_has_pair(st@, cc, ss) <==> rows_contain(
                        all.take(i as int + 1),
                        cc,
                        ss,
                    ) by {
                    lemma_rows_contain_push(all.take(i as int), all[i as int], cc, ss);
                    assert(seq_has_pair(before, cc, ss) <==> rows_contain(
                        all.take(i as int),
                        cc,
                        ss,
                    ));
                    if seq_has_pair(before, c as int, s as int) {
                        assert(st@ == before);
                    } else {
                        lemma_has_pair_push(
                            before,
                            AnnouncedSolve { challenge_id: c, solver_id: s },
                            cc,
                            ss,
                        );
                        assert(st@ == before.push(AnnouncedSolve { challenge_id: c, solver_id: s }));
                    }
                }
            }
            i = i + 1;
        }
        proof {
            assert(all.take(all.len() as int) =~= all);
        }
        st
    }

    /// Mark every reported solve as already announced without emitting any
    /// event — the startup pass that skips solves which existed before the
    /// process began watching.
    pub fn mark_all(&mut self, reported: &Vec<ReportedSolve>)
        requires
            old(self).wf(),
        ensures
            final(self).wf(),
            forall|c: int, s: int|
                final(self).contains_pair(c, s) <==> (old(self).contains_pair(c, s)
                    || reported_pairs(reported@).contains((c, s))),
    {
        let ghost all = reported@;
        let ghost ps0 = old(self)@;
        let mut i: usize = 0;
        proof {
            assert(all.take(0) =~= Seq::<ReportedSolve>::empty());
        }
        while i < reported.len()
            invariant
                i <= all.len(),
                reported@ == all,
                self.wf(),
                forall|c: int, s: int|
                    seq_has_pair(self@, c, s) <==> (seq_has_pair(ps0, c, s) || reported_pairs(
                        all.take(i as int),
                    ).contains((c, s))),
            decreases all.len() - i,
        {
            let c = reported[i].challenge_id;
            let s = reported[i].solver_id;
            let ghost before = self@;
            self.record(c, s);
            proof {
                assert(all.take(i as int + 1) =~= all.take(i as int).push(all[i as int]));
                assert forall|cc: int, ss: int|
                    seq_has_pair(self@, cc, ss) <==> (seq_has_pair(ps0, cc, ss) || reported_pairs(
                        all.take(i as int + 1),
                    ).contains((cc, ss))) by {
                    lemma_reported_pairs_push(all.take(i as int), all[i as int], cc, ss);
                    assert(seq_has_pair(before, cc, ss) <==> (seq_has_pair(ps0, cc, ss)
                        || reported_pairs(all.take(i as int)).contains((cc, ss))));
                    if seq_has_pair(before, c as int, s as int) {
                        assert(self@ == before);
                    } else {
                        lemma_has_pair_push(
                            before,
                            AnnouncedSolve { challenge_id: c, solver_id: s },
                            cc,
                            ss,
                        );
                        assert(self@ == before.push(
                            AnnouncedSolve { challenge_id: c, solver_id: s },
                        ));
                    }
                }
            }
            i = i + 1;
        }
        proof {
            assert(all.take(all.len() as int) =~= all);
        }
    }
}

/// The set of identifier pairs a sequence of reported solves mentions.
pub open spec fn reported_pairs(rs: Seq<ReportedSolve>) -> Set<(int, int)> {
    Set::new(
        |p: (int, int)|
            exists|k: int|
                0 <= k < rs.len() && rs[k].challenge_id == p.0 && rs[k].solver_id == p.1,
    )
}

/// Appending a reported solve adds exactly its pair to the mentioned set.
pub proof fn lemma_reported_pairs_push(rs: Seq<ReportedSolve>, r: ReportedSolve, c: int, s: int)
    ensures
        reported_pairs(rs.push(r)).contains((c, s)) <==> (reported_pairs(rs).contains((c, s)) || (
        r.challenge_id == c && r.solver_id == s)),
{
    if reported_pairs(rs).contains((c, s)) {
        let k = choose|k: int| 0 <= k < rs.len() && rs[k].challenge_id == c && rs[k].solver_id == s;
        assert(rs.push(r)[k].challenge_id == c && rs.push(r)[k].solver_id == s);
    }
    if r.challenge_id == c && r.solver_id == s {
        assert(rs.push(r)[rs.len() as int].challenge_id == c);
    }
    if reported_pairs(rs.push(r)).contains((c, s)) {
        let k = choose|k: int|
            0 <= k < rs.push(r).len() && rs.push(r)[k].challenge_id == c && rs.push(r)[k].solver_id
                == s;
        if k < rs.len() {
            assert(rs[k].challenge_id == c && rs[k].solver_id == s);
        }
    }
}

} // verus!
