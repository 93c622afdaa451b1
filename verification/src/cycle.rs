//! Step-wise driver of one solve reconciliation pass.
//!
//! The surrounding process owns the durable storage and the notification
//! channel, so the pass is driven one announcement at a time: `next` yields
//! the next solve that must be announced, the caller attempts the durable
//! write, and `settle` turns the write's outcome into either a released
//! notification or a suppressed one. A solve whose record did not persist is
//! never handed out for notification and is not remembered as announced.

use vstd::prelude::*;

use crate::solves::AnnouncedSolve;
use crate::solves::ReportedSolve;
use crate::solves::SolveEvent;
use crate::solves::SolveStore;
use crate::solves::decision;
use crate::solves::event_of;
use crate::solves::pair_of;
use crate::solves::run_events;
use crate::solves::run_store;
use crate::solves::seq_dup_free;

verus! {

/// Law: the positions `next` advances over change nothing. Skipping reported
/// solves whose decision is `None` leaves both the remaining events and the
/// final announced set of the whole-pass model untouched.
pub proof fn lemma_skipped_solves_change_nothing(
    rs: Seq<ReportedSolve>,
    ps: Seq<AnnouncedSolve>,
    first_blood_only: bool,
    a: int,
    b: int,
)
    requires
        0 <= a <= b <= rs.len(),
        forall|j: int|
            a <= j < b ==> decision(
                ps,
                rs[j].challenge_id as int,
                rs[j].solver_id as int,
                first_blood_only,
            ) is None,
    ensures
        run_events(rs.skip(a), ps, first_blood_only) == run_events(
            rs.skip(b),
            ps,
            first_blood_only,
        ),
        run_store(rs.skip(a), ps, first_blood_only) == run_store(
            rs.skip(b),
            ps,
            first_blood_only,
        ),
    decreases b - a,
{
    if a < b {
        assert(rs.skip(a)[0] == rs[a]);
        assert(rs.skip(a).drop_first() =~= rs.skip(a + 1));
        lemma_skipped_solves_change_nothing(rs, ps, first_blood_only, a + 1, b);
    }
}

/// Law: one persisted `settle` step agrees with the whole-pass model. At a
/// reported solve that must be announced, recording its pair and releasing
/// its event peels exactly that event off the remaining pass.
pub proof fn lemma_announced_solve_peels_event(
    rs: Seq<ReportedSolve>,
    ps: Seq<AnnouncedSolve>,
    first_blood_only: bool,
    k: int,
)
    requires
        0 <= k < rs.len(),
        decision(
            ps,
            rs[k].challenge_id as int,
            rs[k].solver_id as int,
            first_blood_only,
        ) is Some,
    ensures
        run_events(rs.skip(k), ps, first_blood_only) == seq![
            event_of(
                rs[k],
                decision(
                    ps,
                    rs[k].challenge_id as int,
                    rs[k].solver_id as int,
                    first_blood_only,
                )->Some_0,
            ),
        ] + run_events(rs.skip(k + 1), ps.push(pair_of(rs[k])), first_blood_only),
        run_store(rs.skip(k), ps, first_blood_only) == run_store(
            rs.skip(k + 1),
            ps.push(pair_of(rs[k])),
            first_blood_only,
        ),
{
    assert(rs.skip(k)[0] == rs[k]);
    assert(rs.skip(k).drop_first() =~= rs.skip(k + 1));
}

/// One in-progress solve reconciliation pass.
pub struct SolveCycle {
    store: SolveStore,
    pending: Vec<ReportedSolve>,
    idx: usize,
    first_blood_only: bool,
}

impl SolveCycle {
    /// The announced set as the pass currently knows it.
    pub closed spec fn store_view(&self) -> Seq<AnnouncedSolve> {
        self.store@
    }

    /// The reported solves the pass walks, in order.
    pub closed spec fn pending_view(&self) -> Seq<ReportedSolve> {
        self.pending@
    }

    /// The position of the reported solve under consideration.
    pub closed spec fn at(&self) -> int {
        self.idx as int
    }

    /// Whether only first bloods are announced.
    pub closed spec fn fbo(&self) -> bool {
        self.first_blood_only
    }

    pub open spec fn wf(&self) -> bool {
        seq_dup_free(self.store_view()) && 0 <= self.at() <= self.pending_view().len()
    }

    /// The announcement decision for the reported solve at position `k`.
    pub open spec fn decision_at(&self, k: int) -> Option<bool> {
        decision(
            self.store_view(),
            self.pending_view()[k].challenge_id as int,
            self.pending_view()[k].solver_id as int,
            self.fbo(),
        )
    }

    /// Begin a pass over `reported` with announced set `store`.
    pub fn new(store: SolveStore, reported: Vec<ReportedSolve>, first_blood_only: bool) -> (cy:
        SolveCycle)
        requires
            store.wf(),
        ensures
            cy.wf(),
            cy.store_view() == store@,
            cy.pending_view() == reported@,
            cy.at() == 0,
            cy.fbo() == first_blood_only,
    {
        SolveCycle { store, pending: reported, idx: 0, first_blood_only }
    }

    /// Advance past reported solves that need no announcement and stop at the
    /// first one that does, returning the event it would announce. The solve
    /// is not yet considered announced: the caller must persist it durably
    /// and report the outcome through `settle`.
    #[verifier::loop_isolation(false)]
    pub fn next(&mut self) -> (ev: Option<SolveEvent>)
        requires
            old(self).wf(),
        ensures
            final(self).wf(),
            final(self).store_view() == old(self).store_view(),
            final(self).pending_view() == old(self).pending_view(),
            final(self).fbo() == old(self).fbo(),
            old(self).at() <= final(self).at() <= final(self).pending_view().len(),
            forall|j: int|
                old(self).at() <= j < final(self).at() ==> final(self).decision_at(j) is None,
            ev is Some <==> final(self).at() < final(self).pending_view().len(),
            ev matches Some(e) ==> final(self).decision_at(final(self).at()) matches Some(fb)
                && e == event_of(final(self).pending_view()[final(self).at()], fb),
    {
        let ghost st0 = self.store;
        let ghost pend0 = self.pending@;
        let ghost fbo0 = self.first_blood_only;
        let ghost idx0 = self.idx as int;
        while self.idx < self.pending.len()
            invariant
                self.wf(),
                self.store == st0,
                self.pending@ == pend0,
                self.first_blood_only == fbo0,
                idx0 <= self.idx as int <= self.pending@.len(),
                forall|j: int|
                    idx0 <= j < self.idx as int ==> decision(
                        st0@,
                        pend0[j].challenge_id as int,
                        pend0[j].solver_id as int,
                        fbo0,
                    ) is None,
            decreases self.pending.len() - self.idx,
        {
            let r = &self.pending[self.idx];
            match self.store.evaluate(r.challenge_id, r.solver_id, self.first_blood_only) {
                Option::None => {
                    proof {
                        assert(decision(
                            st0@,
                            pend0[self.idx as int].challenge_id as int,
                            pend0[self.idx as int].solver_id as int,
                            fbo0,
                        ) is None);
                    }
                    self.idx = self.idx + 1;
                },
                Option::Some(fb) => {
                    let ev = SolveEvent {
                        challenge_id: r.challenge_id,
                        challenge_name: r.challenge_name.clone(),
                        solver_id: r.solver_id,
                        solver_name: r.solver_name.clone(),
                        first_blood: fb,
                    };
                    proof {
                        assert(ev == event_of(self.pending@[self.idx as int], fb));
                    }
                    return Option::Some(ev);
                },
            }
        }
        Option::None
    }

    /// Conclude the announcement `next` handed out. Only a solve whose
    /// durable record persisted is remembered as announced and released for
    /// notification; on a storage failure the announced set is unchanged,
    /// nothing is released, and the pass moves on to the next reported solve.
    pub fn settle(&mut self, persisted: bool) -> (notify: Option<SolveEvent>)
        requires
            old(self).wf(),
        ensures
            final(self).wf(),
            final(self).pending_view() == old(self).pending_view(),
            final(self).fbo() == old(self).fbo(),
            !persisted ==> notify is None && final(self).store_view() == old(self).store_view(),
            (old(self).at() < old(self).pending_view().len() && old(self).decision_at(
                old(self).at(),
            ) is Some) ==> {
                &&& final(self).at() == old(self).at() + 1
                &&& (persisted ==> final(self).store_view() == old(self).store_view().push(
                    pair_of(old(self).pending_view()[old(self).at()]),
                ) && notify == Some(
                    event_of(
                        old(self).pending_view()[old(self).at()],
                        old(self).decision_at(old(self).at())->Some_0,
                    ),
                ))
            },
            !(old(self).at() < old(self).pending_view().len() && old(self).decision_at(
                old(self).at(),
            ) is Some) ==> final(self).at() == old(self).at() && final(self).store_view() == old(
                self,
            ).store_view() && notify is None,
    {
        if self.idx >= self.pending.len() {
            return Option::None;
        }
        let r = &self.pending[self.idx];
        let c = r.challenge_id;
        let s = r.solver_id;
        match self.store.evaluate(c, s, self.first_blood_only) {
            Option::None => Option::None,
            Option::Some(fb) => {
                self.idx = self.idx + 1;
                if persisted {
                    let r = &self.pending[self.idx - 1];
                    let ev = SolveEvent {
                        challenge_id: c,
                        challenge_name: r.challenge_name.clone(),
                        solver_id: s,
                        solver_name: r.solver_name.clone(),
                        first_blood: fb,
                    };
                    self.store.record(c, s);
                    Option::Some(ev)
                } else {
                    Option::None
                }
            },
        }
    }

    /// Whether the pass has walked every reported solve.
    pub fn done(&self) -> (b: bool)
        requires
            self.wf(),
        ensures
            b == (self.at() == self.pending_view().len()),
    {
        self.idx >= self.pending.len()
    }

    /// Hand the announced set back to the caller at the end of the pass, to
    /// seed the next one.
    pub fn into_store(self) -> (st: SolveStore)
        ensures
            st@ == self.store_view(),
    {
        self.store
    }
}

} // verus!
